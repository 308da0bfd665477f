//! The game itself: a grid of cells driven toward a win or loss outcome by
//! `sweep` and `flag`, with mines placed lazily on the first reveal.

use vstd::prelude::*;

use crate::cell::{
    digit_string, dot_label, is_mine_dot, is_solved_dot, flag_toggle, flag_delta, Density, Dot,
    GameError, Swept,
};
use crate::grid::{
    adj_mines, all_unexplored, block_offset, cell_at, chain_parented, coords_view, flag_board,
    grid_dims, has_zero_parent, in_grid, lemma_adj_mines_agree, lemma_adj_mines_bounds,
    lemma_grid_count_bounds, lemma_grid_count_pointwise, lemma_grid_count_update,
    lemma_list_mine_count_take_all, lemma_list_mine_count_take_step, lemma_neighbors_in_grid,
    lemma_neighbors_symmetric, lemma_update_cell, list_mine_count, mine_count, mine_pred,
    mines_agree, neighbor_offsets, neighbors_of, neighbors_upto, no_flags, numbers_correct,
    only_cell_changed, reveal_frame, rows_view, solved_count, solved_pred, unexplored_count,
    unexplored_pred, update_cell, zeros_exhausted, zeros_saturated,
};
use crate::scatter::{draw_index, lemma_dedup_firsts, nominal_mines, unique_pairs};

verus! {

/// How often a scatter that would put a mine under the first click is
/// redrawn before the engine falls back to clearing that one cell.
const SCATTER_RETRIES: usize = 32;

/// A game in progress: the board, its configuration, whether mines have
/// been placed yet, and how many cells are correctly accounted for.
pub struct Game {
    w: usize,
    h: usize,
    density: Density,
    dots: Vec<Vec<Dot>>,
    is_scattered: bool,
    collect_dots: usize,
}

impl Game {
    /// The number of columns of the board.
    pub closed spec fn width(&self) -> int {
        self.w as int
    }

    /// The number of rows of the board.
    pub closed spec fn height(&self) -> int {
        self.h as int
    }

    /// The configured mine-density tier.
    pub closed spec fn level(&self) -> Density {
        self.density
    }

    /// The board as a sequence of rows of cells.
    pub closed spec fn board(&self) -> Seq<Seq<Dot>> {
        rows_view(self.dots@)
    }

    /// Whether the lazy mine placement has happened yet. It happens on
    /// the first `sweep`; until then the board holds no mines and `flag`
    /// is rejected.
    pub closed spec fn scattered(&self) -> bool {
        self.is_scattered
    }

    /// The number of cells correctly accounted for: revealed safe cells
    /// plus correctly flagged mines. The game is won when this reaches
    /// the number of cells.
    pub closed spec fn solved(&self) -> int {
        self.collect_dots as int
    }

    /// The internal invariant: the board is rectangular, small enough for
    /// the mine-count arithmetic, the solved counter matches the board,
    /// every revealed count is the true count of adjacent mines, and
    /// before the scatter the board is untouched.
    pub closed spec fn wf(&self) -> bool {
        &&& grid_dims(self.board(), self.width(), self.height())
        &&& self.width() * self.height() * 20 + 99 <= usize::MAX
        &&& self.solved() == solved_count(self.board())
        &&& numbers_correct(self.board(), self.width(), self.height())
        &&& (!self.scattered() ==> all_unexplored(self.board(), self.width(), self.height())
            && self.solved() == 0)
    }

    /// What a caller may rely on of any well-formed game: the board is
    /// rectangular, the solved counter counts exactly the solved cells,
    /// every revealed count is true, and before the scatter the board is
    /// untouched.
    pub proof fn lemma_wf_facts(&self)
        requires
            self.wf(),
        ensures
            grid_dims(self.board(), self.width(), self.height()),
            self.width() >= 0,
            self.height() >= 0,
            self.solved() == solved_count(self.board()),
            numbers_correct(self.board(), self.width(), self.height()),
            0 <= self.solved() <= self.width() * self.height(),
            self.width() * self.height() <= usize::MAX,
            !self.scattered() ==> all_unexplored(self.board(), self.width(), self.height())
                && self.solved() == 0,
    {
        lemma_grid_count_bounds(self.board(), self.width(), self.height(), solved_pred());
        assert(self.width() * self.height() <= self.width() * self.height() * 20)
            by (nonlinear_arith)
            requires self.width() >= 0, self.height() >= 0;
    }

    /// Creates an unconfigured game: an empty board with nothing placed.
    pub fn new() -> (g: Game)
        ensures
            g.wf(),
            g.width() == 0,
            g.height() == 0,
            g.level() == Density::Low,
            !g.scattered(),
            g.solved() == 0,
    {
        let g = Game {
            w: 0,
            h: 0,
            density: Density::Low,
            dots: Vec::new(),
            is_scattered: false,
            collect_dots: 0,
        };
        proof {
            assert(g.board() =~= Seq::<Seq<Dot>>::empty());
        }
        g
    }

    /// Resets the board to `w` by `h` unexplored cells at the given
    /// density. Mines are not placed yet; the first `sweep` places them.
    pub fn configure(&mut self, w: usize, h: usize, density: Density)
        requires
            w * h * 20 + 99 <= usize::MAX,
        ensures
            final(self).wf(),
            final(self).width() == w,
            final(self).height() == h,
            final(self).level() == density,
            !final(self).scattered(),
            final(self).solved() == 0,
            all_unexplored(final(self).board(), w as int, h as int),
    {
        self.w = w;
        self.h = h;
        self.dots = fresh_board(w, h);
        self.is_scattered = false;
        self.density = density;
        self.collect_dots = 0;
        proof {
            lemma_grid_count_bounds(self.board(), w as int, h as int, solved_pred());
        }
    }

    /// Sets up the fixed three-by-three practice board: mines in the two
    /// lower corners, everything else unexplored, mines counted as
    /// already placed.
    pub fn init(&mut self, w: usize, h: usize)
        requires
            w == 3,
            h == 3,
        ensures
            final(self).wf(),
            final(self).width() == 3,
            final(self).height() == 3,
            final(self).level() == old(self).level(),
            final(self).scattered(),
            final(self).solved() == 0,
            forall|x: int, y: int|
                in_grid(3, 3, x, y) ==> #[trigger] cell_at(final(self).board(), x, y) == (if (x
                    == 0 && y == 2) || (x == 2 && y == 2) {
                    Dot::Mine
                } else {
                    Dot::Unexplored
                }),
    {
        self.w = w;
        self.h = h;
        self.dots = fresh_board(w, h);
        self.is_scattered = true;
        self.collect_dots = 0;
        let ghost b0 = self.board();
        self.set_dot(0, 2, Dot::Mine);
        let ghost b1 = self.board();
        self.set_dot(2, 2, Dot::Mine);
        proof {
            lemma_update_cell(b0, 3, 3, 0, 2, Dot::Mine);
            lemma_update_cell(b1, 3, 3, 2, 2, Dot::Mine);
            let b2 = self.board();
            assert(forall|x: int, y: int|
                in_grid(3, 3, x, y) ==> #[trigger] cell_at(b2, x, y) == (if (x == 0 && y == 2) || (
                x == 2 && y == 2) {
                    Dot::Mine
                } else {
                    Dot::Unexplored
                }));
            lemma_grid_count_bounds(b2, 3, 3, solved_pred());
        }
    }

    /// Replaces the cell at `(x, y)`, leaving every other cell and every
    /// other field alone.
    fn set_dot(&mut self, x: usize, y: usize, d: Dot)
        requires
            grid_dims(old(self).board(), old(self).width(), old(self).height()),
            in_grid(old(self).width(), old(self).height(), x as int, y as int),
        ensures
            final(self).board() == update_cell(old(self).board(), x as int, y as int, d),
            final(self).width() == old(self).width(),
            final(self).height() == old(self).height(),
            final(self).level() == old(self).level(),
            final(self).scattered() == old(self).scattered(),
            final(self).solved() == old(self).solved(),
    {
        proof {
            assert(rows_view(self.dots@).len() == self.dots@.len());
            assert(rows_view(self.dots@)[y as int] == self.dots@[y as int]@);
        }
        self.dots[y][x] = d;
        proof {
            assert(self.board() =~= update_cell(old(self).board(), x as int, y as int, d));
        }
    }

    /// Reads the cell at `(x, y)`.
    pub fn dot_at(&self, x: usize, y: usize) -> (d: Dot)
        requires
            self.wf(),
            in_grid(self.width(), self.height(), x as int, y as int),
        ensures
            d == cell_at(self.board(), x as int, y as int),
    {
        self.dots[y][x]
    }

    /// The coordinates of the up-to-eight neighbours of `(x, y)` that lie
    /// on the board, walked by column offset first and row offset second.
    pub fn rounds(&self, x: usize, y: usize) -> (r: Vec<(usize, usize)>)
        requires
            self.wf(),
            in_grid(self.width(), self.height(), x as int, y as int),
        ensures
            coords_view(r@) == neighbors_of(self.width(), self.height(), x as int, y as int),
    {
        proof {
            lemma_size_bounds(self.width(), self.height());
        }
        let xi = x as i64;
        let yi = y as i64;
        let wi = self.w as i64;
        let hi = self.h as i64;
        let mut r: Vec<(usize, usize)> = Vec::new();
        let mut j: usize = 0;
        while j < 9
            invariant
                j <= 9,
                xi as int == x as int,
                yi as int == y as int,
                wi as int == self.width(),
                hi as int == self.height(),
                0 <= xi < wi,
                0 <= yi < hi,
                wi <= 0x1000_0000_0000_0000,
                hi <= 0x1000_0000_0000_0000,
                coords_view(r@) == neighbors_upto(
                    self.width(),
                    self.height(),
                    x as int,
                    y as int,
                    processed_offsets(j as int),
                ),
            decreases 9 - j,
        {
            if j != 4 {
                let dx = (j / 3) as i64 - 1;
                let dy = (j % 3) as i64 - 1;
                let nx = xi + dx;
                let ny = yi + dy;
                let ghost k = processed_offsets(j as int);
                proof {
                    assert(neighbor_offsets()[k] == block_offset(j as int));
                    assert(dx as int == block_offset(j as int).0);
                    assert(dy as int == block_offset(j as int).1);
                }
                if 0 <= nx && nx < wi && 0 <= ny && ny < hi {
                    let ghost rpre = r@;
                    r.push((nx as usize, ny as usize));
                    proof {
                        assert(coords_view(r@) =~= coords_view(rpre).push(
                            ((nx as usize) as int, (ny as usize) as int),
                        ));
                        assert((nx as usize) as int == x as int + dx as int);
                        assert((ny as usize) as int == y as int + dy as int);
                    }
                } else {
                    proof {
                        assert(!in_grid(
                            self.width(),
                            self.height(),
                            x as int + dx as int,
                            y as int + dy as int,
                        ));
                    }
                }
            }
            j += 1;
        }
        r
    }

    /// Draws the nominal number of mine positions for a `w` by `h` board
    /// at the given density: uniform draws over the cell indices, mapped
    /// to coordinates and deduplicated, so repeats make the placed count
    /// fall short of the nominal one, never exceed it. The count is
    /// clamped below the cell count so that at least one cell stays free.
    pub fn get_scatter_mines(w: usize, h: usize, density: &Density) -> (r: Vec<(usize, usize)>)
        requires
            1 <= w as int * h as int,
            w as int * h as int * 20 + 99 <= usize::MAX,
        ensures
            r@.len() <= nominal_mines(w as int, h as int, *density),
            r@.len() < w as int * h as int,
            w as int * h as int >= 2 ==> r@.len() >= 1,
            forall|i: int| 0 <= i < r@.len() ==> ((#[trigger] r@[i]).0 < w && r@[i].1 < h),
            forall|i: int, j: int| 0 <= i < j < r@.len() ==> r@[i] != r@[j],
    {
        proof {
            assert(w as int * h as int <= w as int * h as int * 20) by (nonlinear_arith)
                requires w as int * h as int >= 1;
            assert(w as int >= 1 && h as int >= 1) by (nonlinear_arith)
                requires w as int * h as int >= 1, w as int >= 0, h as int >= 0;
        }
        let total = w * h;
        let ratio: usize = match density {
            Density::Low => 5,
            Density::Middle => 10,
            Density::High => 20,
        };
        proof {
            assert(total as int * ratio as int <= total as int * 20) by (nonlinear_arith)
                requires total as int >= 0, 0 <= ratio as int <= 20;
            assert(total as int * ratio as int >= 5) by (nonlinear_arith)
                requires total as int >= 1, ratio as int >= 5;
        }
        let nominal = (total * ratio + 99) / 100;
        proof {
            assert(nominal as int >= 1) by (nonlinear_arith)
                requires nominal as int == (total as int * ratio as int + 99) / 100,
                    total as int * ratio as int >= 5;
        }
        let count = if nominal >= total {
            total - 1
        } else {
            nominal
        };
        let mut draws: Vec<(usize, usize)> = Vec::new();
        let mut i: usize = 0;
        while i < count
            invariant
                i <= count,
                draws@.len() == i,
                total as int == w as int * h as int,
                1 <= total,
                w >= 1,
                h >= 1,
                forall|k: int| 0 <= k < i ==> ((#[trigger] draws@[k]).0 < w && draws@[k].1 < h),
            decreases count - i,
        {
            let n = draw_index(total);
            proof {
                assert((n as int) % (w as int) < w as int && (n as int) % (w as int) >= 0)
                    by (nonlinear_arith)
                    requires w as int >= 1, n as int >= 0;
                assert((n as int) / (w as int) < h as int && (n as int) / (w as int) >= 0)
                    by (nonlinear_arith)
                    requires w as int >= 1, h as int >= 0, 0 <= n as int, (n as int) < (w as int) * (h as int);
            }
            let cx = n % w;
            let cy = n / w;
            draws.push((cx, cy));
            i += 1;
        }
        let r = unique_pairs(draws);
        proof {
            lemma_dedup_firsts(draws@);
            assert forall|i2: int| 0 <= i2 < r@.len() implies ((#[trigger] r@[i2]).0 < w
                && r@[i2].1 < h) by {
                assert(r@.contains(r@[i2]));
                assert(draws@.contains(r@[i2]));
                let k = choose|k: int| 0 <= k < draws@.len() && draws@[k] == r@[i2];
                assert(draws@[k].0 < w && draws@[k].1 < h);
            }
        }
        r
    }

    /// Builds a fresh board with this game's dimensions and a freshly
    /// drawn set of mines on it.
    fn scattered_board(&self) -> (b: Vec<Vec<Dot>>)
        requires
            self.wf(),
            1 <= self.width() * self.height(),
        ensures
            grid_dims(rows_view(b@), self.width(), self.height()),
            forall|x: int, y: int|
                in_grid(self.width(), self.height(), x, y) ==> (#[trigger] cell_at(
                    rows_view(b@),
                    x,
                    y,
                ) == Dot::Unexplored || cell_at(rows_view(b@), x, y) == Dot::Mine),
            mine_count(rows_view(b@)) <= nominal_mines(self.width(), self.height(), self.level()),
    {
        let coords = Game::get_scatter_mines(self.w, self.h, &self.density);
        let mut b = fresh_board(self.w, self.h);
        proof {
            lemma_grid_count_bounds(rows_view(b@), self.width(), self.height(), mine_pred());
        }
        let mut i: usize = 0;
        while i < coords.len()
            invariant
                i <= coords@.len(),
                coords@.len() <= nominal_mines(self.width(), self.height(), self.level()),
                forall|k: int|
                    0 <= k < coords@.len() ==> ((#[trigger] coords@[k]).0 < self.width()
                        && coords@[k].1 < self.height()),
                grid_dims(rows_view(b@), self.width(), self.height()),
                forall|x: int, y: int|
                    in_grid(self.width(), self.height(), x, y) ==> (#[trigger] cell_at(
                        rows_view(b@),
                        x,
                        y,
                    ) == Dot::Unexplored || cell_at(rows_view(b@), x, y) == Dot::Mine),
                mine_count(rows_view(b@)) <= i,
            decreases coords@.len() - i,
        {
            let (cx, cy) = coords[i];
            let ghost bpre = rows_view(b@);
            proof {
                assert(rows_view(b@).len() == b@.len());
                assert(rows_view(b@)[cy as int] == b@[cy as int]@);
            }
            set_cell(&mut b, cx, cy, Dot::Mine);
            proof {
                lemma_grid_count_update(
                    bpre,
                    self.width(),
                    self.height(),
                    cx as int,
                    cy as int,
                    Dot::Mine,
                    mine_pred(),
                );
                lemma_update_cell(bpre, self.width(), self.height(), cx as int, cy as int, Dot::Mine);
            }
            i += 1;
        }
        b
    }

    /// Places the mines for the first reveal at `(x, y)`: a scatter that
    /// would put a mine under that first click is redrawn, and after too
    /// many unlucky draws that one cell is cleared instead, so the first
    /// reveal is always safe.
    fn put_mines(&mut self, x: usize, y: usize)
        requires
            old(self).wf(),
            !old(self).scattered(),
            in_grid(old(self).width(), old(self).height(), x as int, y as int),
        ensures
            final(self).wf(),
            final(self).width() == old(self).width(),
            final(self).height() == old(self).height(),
            final(self).level() == old(self).level(),
            final(self).scattered(),
            final(self).solved() == 0,
            forall|i: int, j: int|
                in_grid(final(self).width(), final(self).height(), i, j) ==> (#[trigger] cell_at(
                    final(self).board(),
                    i,
                    j,
                ) == Dot::Unexplored || cell_at(final(self).board(), i, j) == Dot::Mine),
            cell_at(final(self).board(), x as int, y as int) == Dot::Unexplored,
            mine_count(final(self).board()) <= nominal_mines(
                final(self).width(),
                final(self).height(),
                final(self).level(),
            ),
    {
        proof {
            assert(1 <= self.width() * self.height()) by (nonlinear_arith)
                requires self.width() >= 1, self.height() >= 1;
        }
        let mut board = self.scattered_board();
        let mut t: usize = 0;
        while t < SCATTER_RETRIES
            invariant
                t <= SCATTER_RETRIES,
                self.wf(),
                !self.scattered(),
                in_grid(self.width(), self.height(), x as int, y as int),
                1 <= self.width() * self.height(),
                grid_dims(rows_view(board@), self.width(), self.height()),
                forall|i: int, j: int|
                    in_grid(self.width(), self.height(), i, j) ==> (#[trigger] cell_at(
                        rows_view(board@),
                        i,
                        j,
                    ) == Dot::Unexplored || cell_at(rows_view(board@), i, j) == Dot::Mine),
                mine_count(rows_view(board@)) <= nominal_mines(
                    self.width(),
                    self.height(),
                    self.level(),
                ),
            decreases SCATTER_RETRIES - t,
        {
            proof {
                assert(rows_view(board@).len() == board@.len());
                assert(rows_view(board@)[y as int] == board@[y as int]@);
            }
            if get_cell(&board, x, y) != Dot::Mine {
                break ;
            }
            board = self.scattered_board();
            t += 1;
        }
        proof {
            assert(rows_view(board@).len() == board@.len());
            assert(rows_view(board@)[y as int] == board@[y as int]@);
        }
        if get_cell(&board, x, y) == Dot::Mine {
            let ghost bpre = rows_view(board@);
            set_cell(&mut board, x, y, Dot::Unexplored);
            proof {
                lemma_grid_count_update(
                    bpre,
                    self.width(),
                    self.height(),
                    x as int,
                    y as int,
                    Dot::Unexplored,
                    mine_pred(),
                );
                lemma_update_cell(
                    bpre,
                    self.width(),
                    self.height(),
                    x as int,
                    y as int,
                    Dot::Unexplored,
                );
            }
        }
        self.dots = board;
        self.is_scattered = true;
        proof {
            let b = self.board();
            lemma_grid_count_bounds(b, self.width(), self.height(), solved_pred());
            assert(forall|i: int, j: int|
                in_grid(self.width(), self.height(), i, j) ==> !(solved_pred())(
                    #[trigger] cell_at(b, i, j),
                ));
        }
    }

    /// Reveals the cell at `(x, y)`. The first reveal places the mines,
    /// avoiding the clicked cell, so it never hits one. Sweeping a mine
    /// loses with `Bomb` and changes nothing else; a revealed or flagged
    /// cell answers `Stay` and changes nothing; an unexplored cell comes
    /// up as its true adjacent-mine count, and a count of zero reveals
    /// the neighbours in turn until the whole connected zero region is
    /// open. The call wins with `Clear` exactly when every cell is then
    /// accounted for, and answers `Safe` otherwise.
    pub fn sweep(&mut self, x: usize, y: usize) -> (res: Result<Swept, GameError>)
        requires
            old(self).wf(),
        ensures
            final(self).wf(),
            final(self).width() == old(self).width(),
            final(self).height() == old(self).height(),
            final(self).level() == old(self).level(),
            final(self).solved() == solved_count(final(self).board()),
            numbers_correct(final(self).board(), old(self).width(), old(self).height()),
            !in_grid(old(self).width(), old(self).height(), x as int, y as int) ==> res
                == Err::<Swept, GameError>(GameError::OutOfBounds) && *final(self) == *old(self),
            in_grid(old(self).width(), old(self).height(), x as int, y as int)
                ==> final(self).scattered() && res is Ok,
            old(self).scattered() && in_grid(
                old(self).width(),
                old(self).height(),
                x as int,
                y as int,
            ) && cell_at(old(self).board(), x as int, y as int) == Dot::Mine ==> res
                == Ok::<Swept, GameError>(Swept::Bomb) && *final(self) == *old(self),
            old(self).scattered() && in_grid(
                old(self).width(),
                old(self).height(),
                x as int,
                y as int,
            ) && cell_at(old(self).board(), x as int, y as int) != Dot::Mine && cell_at(
                old(self).board(),
                x as int,
                y as int,
            ) != Dot::Unexplored ==> res == Ok::<Swept, GameError>(Swept::Stay) && *final(self)
                == *old(self),
            old(self).scattered() && in_grid(
                old(self).width(),
                old(self).height(),
                x as int,
                y as int,
            ) && cell_at(old(self).board(), x as int, y as int) == Dot::Unexplored ==> {
                &&& reveal_frame(old(self).board(), final(self).board(), old(self).width(), old(self).height())
                &&& mines_agree(old(self).board(), final(self).board(), old(self).width(), old(self).height())
                &&& zeros_saturated(old(self).board(), final(self).board(), old(self).width(), old(self).height())
                &&& chain_parented(
                    old(self).board(),
                    final(self).board(),
                    old(self).width(),
                    old(self).height(),
                    x as int,
                    y as int,
                )
                &&& (adj_mines(
                    old(self).board(),
                    old(self).width(),
                    old(self).height(),
                    x as int,
                    y as int,
                ) != 0 ==> only_cell_changed(
                    old(self).board(),
                    final(self).board(),
                    old(self).width(),
                    old(self).height(),
                    x as int,
                    y as int,
                ))
                &&& cell_at(final(self).board(), x as int, y as int) is Number
                &&& final(self).solved() >= old(self).solved() + 1
                &&& (res == Ok::<Swept, GameError>(Swept::Clear) <==> final(self).solved()
                    == old(self).width() * old(self).height())
                &&& (res == Ok::<Swept, GameError>(Swept::Clear) || res == Ok::<Swept, GameError>(
                    Swept::Safe,
                ))
            },
            !old(self).scattered() && in_grid(
                old(self).width(),
                old(self).height(),
                x as int,
                y as int,
            ) ==> {
                &&& no_flags(final(self).board(), old(self).width(), old(self).height())
                &&& zeros_exhausted(final(self).board(), old(self).width(), old(self).height())
                &&& chain_parented(
                    old(self).board(),
                    final(self).board(),
                    old(self).width(),
                    old(self).height(),
                    x as int,
                    y as int,
                )
                &&& cell_at(final(self).board(), x as int, y as int) is Number
                &&& mine_count(final(self).board()) <= nominal_mines(
                    old(self).width(),
                    old(self).height(),
                    old(self).level(),
                )
                &&& final(self).solved() >= 1
                &&& (res == Ok::<Swept, GameError>(Swept::Clear) <==> final(self).solved()
                    == old(self).width() * old(self).height())
                &&& (res == Ok::<Swept, GameError>(Swept::Clear) || res == Ok::<Swept, GameError>(
                    Swept::Safe,
                ))
            },
    {
        if !(x < self.w && y < self.h) {
            return Err(GameError::OutOfBounds);
        }
        if !self.is_scattered {
            self.put_mines(x, y);
        }
        let ghost b1 = self.board();
        let ghost wd = self.width();
        let ghost ht = self.height();
        let ghost lvl = self.level();
        let d0 = self.dot_at(x, y);
        match d0 {
            Dot::Mine => Ok(Swept::Bomb),
            Dot::Number(_) => Ok(Swept::Stay),
            Dot::FlaggedMine => Ok(Swept::Stay),
            Dot::FlaggedSafe => Ok(Swept::Stay),
            Dot::Unexplored => {
                let mut stack: Vec<(usize, usize)> = Vec::new();
                stack.push((x, y));
                proof {
                    assert(coords_view(stack@)[0] == (x as int, y as int));
                    assert(coords_view(stack@).contains((x as int, y as int)));
                    assert(stack@ == seq![(x, y)]);
                    lemma_grid_count_bounds(self.board(), wd, ht, unexplored_pred());
                }
                while stack.len() > 0
                    invariant
                        self.wf(),
                        self.width() == wd,
                        self.height() == ht,
                        self.level() == lvl,
                        self.scattered(),
                        in_grid(wd, ht, x as int, y as int),
                        cell_at(b1, x as int, y as int) == Dot::Unexplored,
                        grid_dims(b1, wd, ht),
                        mines_agree(b1, self.board(), wd, ht),
                        reveal_frame(b1, self.board(), wd, ht),
                        chain_parented(b1, self.board(), wd, ht, x as int, y as int),
                        forall|k: int|
                            0 <= k < stack@.len() ==> (#[trigger] stack@[k] == (x, y)
                                || has_zero_parent(
                                b1,
                                self.board(),
                                wd,
                                ht,
                                stack@[k].0 as int,
                                stack@[k].1 as int,
                            )),
                        adj_mines(b1, wd, ht, x as int, y as int) != 0 ==> ((self.board() == b1 && stack@
                            == seq![(x, y)]) || (stack@.len() == 0 && cell_at(
                            self.board(),
                            x as int,
                            y as int,
                        ) is Number && only_cell_changed(
                            b1,
                            self.board(),
                            wd,
                            ht,
                            x as int,
                            y as int,
                        ))),
                        forall|k: int|
                            0 <= k < stack@.len() ==> in_grid(
                                wd,
                                ht,
                                (#[trigger] stack@[k]).0 as int,
                                stack@[k].1 as int,
                            ),
                        cell_at(self.board(), x as int, y as int) is Number || (cell_at(
                            self.board(),
                            x as int,
                            y as int,
                        ) == Dot::Unexplored && coords_view(stack@).contains(
                            (x as int, y as int),
                        )),
                        forall|i: int, j: int|
                            in_grid(wd, ht, i, j) && cell_at(b1, i, j) == Dot::Unexplored
                                && #[trigger] cell_at(self.board(), i, j) == Dot::Number(0u64)
                                ==> (forall|q: int|
                                0 <= q < neighbors_of(wd, ht, i, j).len() ==> cell_at(
                                    self.board(),
                                    (#[trigger] neighbors_of(wd, ht, i, j)[q]).0,
                                    neighbors_of(wd, ht, i, j)[q].1,
                                ) != Dot::Unexplored || coords_view(stack@).contains(
                                    neighbors_of(wd, ht, i, j)[q],
                                )),
                        self.solved() >= solved_count(b1) + (if cell_at(
                            self.board(),
                            x as int,
                            y as int,
                        ) is Number {
                            1int
                        } else {
                            0int
                        }),
                        0 <= unexplored_count(self.board()),
                    decreases unexplored_count(self.board()), stack@.len(),
                {
                    let ghost stack0 = stack@;
                    let popped = stack.pop();
                    let (cx, cy) = popped.unwrap();
                    proof {
                        assert(stack@ =~= stack0.drop_last());
                        assert((cx, cy) == stack0.last());
                        assert(coords_view(stack0).last() == (cx as int, cy as int));
                        assert(forall|k: int|
                            0 <= k < stack@.len() ==> #[trigger] stack@[k] == stack0[k]);
                        assert forall|p: (int, int)|
                            coords_view(stack0).contains(p) && p != (
                            cx as int,
                            cy as int,
                        ) implies coords_view(stack@).contains(p) by {
                            let k = choose|k: int|
                                0 <= k < coords_view(stack0).len() && coords_view(stack0)[k] == p;
                            assert(k < stack0.len() - 1);
                            assert(coords_view(stack@)[k] == p);
                        }
                    }
                    let d = self.dot_at(cx, cy);
                    if d == Dot::Unexplored {
                        let ghost bpre = self.board();
                        let nbrs = self.rounds(cx, cy);
                        proof {
                            lemma_neighbors_in_grid(wd, ht, cx as int, cy as int);
                            assert(coords_view(nbrs@).take(0) =~= Seq::<(int, int)>::empty());
                            assert(coords_view(nbrs@).len() == nbrs@.len());
                            assert forall|q: int| 0 <= q < nbrs@.len() implies in_grid(
                                wd,
                                ht,
                                (#[trigger] nbrs@[q]).0 as int,
                                nbrs@[q].1 as int,
                            ) by {
                                assert(coords_view(nbrs@)[q] == (nbrs@[q].0 as int, nbrs@[q].1 as int));
                            }
                        }
                        let mut mines: u64 = 0;
                        let mut qi: usize = 0;
                        while qi < nbrs.len()
                            invariant
                                qi <= nbrs@.len(),
                                self.wf(),
                                self.width() == wd,
                                self.height() == ht,
                                self.board() == bpre,
                                grid_dims(bpre, wd, ht),
                                coords_view(nbrs@) == neighbors_of(wd, ht, cx as int, cy as int),
                                nbrs@.len() <= 8,
                                forall|q: int|
                                    0 <= q < nbrs@.len() ==> in_grid(
                                        wd,
                                        ht,
                                        (#[trigger] nbrs@[q]).0 as int,
                                        nbrs@[q].1 as int,
                                    ),
                                mines as int == list_mine_count(
                                    bpre,
                                    coords_view(nbrs@).take(qi as int),
                                ),
                                mines <= qi,
                            decreases nbrs@.len() - qi,
                        {
                            let (nx, ny) = nbrs[qi];
                            proof {
                                assert(coords_view(nbrs@)[qi as int] == (nx as int, ny as int));
                                lemma_list_mine_count_take_step(
                                    bpre,
                                    coords_view(nbrs@),
                                    qi as int,
                                );
                            }
                            let nd = self.dot_at(nx, ny);
                            if nd == Dot::Mine || nd == Dot::FlaggedMine {
                                mines += 1;
                            }
                            qi += 1;
                        }
                        proof {
                            lemma_list_mine_count_take_all(bpre, coords_view(nbrs@));
                            assert(mines as int == adj_mines(bpre, wd, ht, cx as int, cy as int));
                        }
                        let ghost brev = update_cell(
                            bpre,
                            cx as int,
                            cy as int,
                            Dot::Number(mines),
                        );
                        proof {
                            lemma_reveal_cell(
                                bpre,
                                brev,
                                wd,
                                ht,
                                cx as int,
                                cy as int,
                                mines,
                            );
                            lemma_grid_count_bounds(brev, wd, ht, solved_pred());
                            lemma_grid_count_bounds(brev, wd, ht, unexplored_pred());
                            assert(wd * ht <= wd * ht * 20) by (nonlinear_arith)
                                requires wd >= 0, ht >= 0;
                        }
                        self.set_dot(cx, cy, Dot::Number(mines));
                        self.collect_dots += 1;
                        proof {
                            assert(self.board() == brev);
                            assert(mines_agree(b1, self.board(), wd, ht));
                            assert(reveal_frame(b1, self.board(), wd, ht)) by {
                                assert forall|i: int, j: int| in_grid(wd, ht, i, j) implies {
                                    &&& (cell_at(b1, i, j) != Dot::Unexplored
                                        ==> #[trigger] cell_at(self.board(), i, j) == cell_at(
                                        b1,
                                        i,
                                        j,
                                    ))
                                    &&& (cell_at(b1, i, j) == Dot::Unexplored ==> cell_at(
                                        self.board(),
                                        i,
                                        j,
                                    ) == Dot::Unexplored || cell_at(self.board(), i, j) is Number)
                                } by {
                                    if i == cx as int && j == cy as int {
                                        assert(cell_at(bpre, i, j) == Dot::Unexplored);
                                    } else {
                                        assert(cell_at(self.board(), i, j) == cell_at(bpre, i, j));
                                    }
                                }
                            }
                            assert forall|i: int, j: int|
                                in_grid(wd, ht, i, j) && (i != cx as int || j != cy as int)
                                    && cell_at(b1, i, j) == Dot::Unexplored
                                    && #[trigger] cell_at(self.board(), i, j) == Dot::Number(
                                    0u64,
                                ) implies (forall|q: int|
                                0 <= q < neighbors_of(wd, ht, i, j).len() ==> cell_at(
                                    self.board(),
                                    (#[trigger] neighbors_of(wd, ht, i, j)[q]).0,
                                    neighbors_of(wd, ht, i, j)[q].1,
                                ) != Dot::Unexplored || coords_view(stack@).contains(
                                    neighbors_of(wd, ht, i, j)[q],
                                )) by {
                                assert(cell_at(bpre, i, j) == Dot::Number(0u64));
                                assert forall|q: int|
                                    0 <= q < neighbors_of(wd, ht, i, j).len() implies cell_at(
                                    self.board(),
                                    (#[trigger] neighbors_of(wd, ht, i, j)[q]).0,
                                    neighbors_of(wd, ht, i, j)[q].1,
                                ) != Dot::Unexplored || coords_view(stack@).contains(
                                    neighbors_of(wd, ht, i, j)[q],
                                ) by {
                                    let p = neighbors_of(wd, ht, i, j)[q];
                                    lemma_neighbors_in_grid(wd, ht, i, j);
                                    if cell_at(bpre, p.0, p.1) != Dot::Unexplored {
                                        if p.0 == cx as int && p.1 == cy as int {
                                        } else {
                                            assert(cell_at(self.board(), p.0, p.1) == cell_at(
                                                bpre,
                                                p.0,
                                                p.1,
                                            ));
                                        }
                                    } else {
                                        assert(coords_view(stack0).contains(p));
                                        if p == (cx as int, cy as int) {
                                        } else {
                                            assert(coords_view(stack@).contains(p));
                                        }
                                    }
                                }
                            }
                            assert forall|k: int| 0 <= k < stack@.len() implies (#[trigger] stack@[k]
                                == (x, y) || has_zero_parent(
                                b1,
                                self.board(),
                                wd,
                                ht,
                                stack@[k].0 as int,
                                stack@[k].1 as int,
                            )) by {
                                assert(stack@[k] == stack0[k]);
                                if stack0[k] != (x, y) {
                                    lemma_zero_parent_survives(
                                        b1,
                                        bpre,
                                        self.board(),
                                        wd,
                                        ht,
                                        cx as int,
                                        cy as int,
                                        mines,
                                        stack0[k].0 as int,
                                        stack0[k].1 as int,
                                    );
                                }
                            }
                            assert(chain_parented(b1, self.board(), wd, ht, x as int, y as int))
                                by {
                                assert forall|i: int, j: int|
                                    in_grid(wd, ht, i, j) && (i != x as int || j != y as int)
                                        && cell_at(b1, i, j) == Dot::Unexplored
                                        && #[trigger] cell_at(self.board(), i, j)
                                        is Number implies has_zero_parent(
                                    b1,
                                    self.board(),
                                    wd,
                                    ht,
                                    i,
                                    j,
                                ) by {
                                    if i == cx as int && j == cy as int {
                                        assert(stack0[stack0.len() - 1] == (cx, cy));
                                        assert(has_zero_parent(
                                            b1,
                                            bpre,
                                            wd,
                                            ht,
                                            cx as int,
                                            cy as int,
                                        ));
                                        lemma_zero_parent_survives(
                                            b1,
                                            bpre,
                                            self.board(),
                                            wd,
                                            ht,
                                            cx as int,
                                            cy as int,
                                            mines,
                                            i,
                                            j,
                                        );
                                    } else {
                                        assert(cell_at(self.board(), i, j) == cell_at(bpre, i, j));
                                        assert(has_zero_parent(b1, bpre, wd, ht, i, j));
                                        lemma_zero_parent_survives(
                                            b1,
                                            bpre,
                                            self.board(),
                                            wd,
                                            ht,
                                            cx as int,
                                            cy as int,
                                            mines,
                                            i,
                                            j,
                                        );
                                    }
                                }
                            }
                            if adj_mines(b1, wd, ht, x as int, y as int) != 0 {
                                assert(bpre == b1 && stack0 == seq![(x, y)]);
                                assert(stack0[0] == (x, y));
                                assert((cx, cy) == (x, y));
                                assert(mines as int == adj_mines(b1, wd, ht, x as int, y as int));
                                assert(only_cell_changed(b1, self.board(), wd, ht, x as int, y as int));
                                assert(stack@.len() == 0);
                            }
                        }
                        if mines == 0 {
                            proof {
                                if adj_mines(b1, wd, ht, x as int, y as int) != 0 {
                                    assert(bpre == b1 && stack0 == seq![(x, y)]);
                                    assert(stack0[0] == (x, y));
                                    assert((cx, cy) == (x, y));
                                    assert(mines as int == adj_mines(b1, wd, ht, x as int, y as int));
                                    assert(false);
                                }
                            }
                            let mut q2: usize = 0;
                            while q2 < nbrs.len()
                                invariant
                                    q2 <= nbrs@.len(),
                                    self.wf(),
                                    self.width() == wd,
                                    self.height() == ht,
                                    self.level() == lvl,
                                    self.scattered(),
                                    in_grid(wd, ht, x as int, y as int),
                                    in_grid(wd, ht, cx as int, cy as int),
                                    grid_dims(b1, wd, ht),
                                    self.board() == brev,
                                    coords_view(nbrs@) == neighbors_of(
                                        wd,
                                        ht,
                                        cx as int,
                                        cy as int,
                                    ),
                                    forall|q: int|
                                        0 <= q < nbrs@.len() ==> in_grid(
                                            wd,
                                            ht,
                                            (#[trigger] nbrs@[q]).0 as int,
                                            nbrs@[q].1 as int,
                                        ),
                                    cell_at(self.board(), cx as int, cy as int) == Dot::Number(
                                        0u64,
                                    ),
                                    cell_at(b1, cx as int, cy as int) == Dot::Unexplored,
                                    mines_agree(b1, self.board(), wd, ht),
                                    reveal_frame(b1, self.board(), wd, ht),
                                    forall|k: int|
                                        0 <= k < stack@.len() ==> in_grid(
                                            wd,
                                            ht,
                                            (#[trigger] stack@[k]).0 as int,
                                            stack@[k].1 as int,
                                        ),
                                    cell_at(self.board(), x as int, y as int) is Number || (
                                    cell_at(self.board(), x as int, y as int) == Dot::Unexplored
                                        && coords_view(stack@).contains((x as int, y as int))),
                                    forall|i: int, j: int|
                                        in_grid(wd, ht, i, j) && (i != cx as int || j != cy as int)
                                            && cell_at(b1, i, j) == Dot::Unexplored
                                            && #[trigger] cell_at(self.board(), i, j)
                                            == Dot::Number(0u64) ==> (forall|q: int|
                                            0 <= q < neighbors_of(wd, ht, i, j).len() ==> cell_at(
                                                self.board(),
                                                (#[trigger] neighbors_of(wd, ht, i, j)[q]).0,
                                                neighbors_of(wd, ht, i, j)[q].1,
                                            ) != Dot::Unexplored || coords_view(stack@).contains(
                                                neighbors_of(wd, ht, i, j)[q],
                                            )),
                                    forall|q: int|
                                        0 <= q < q2 ==> cell_at(
                                            self.board(),
                                            (#[trigger] coords_view(nbrs@)[q]).0,
                                            coords_view(nbrs@)[q].1,
                                        ) != Dot::Unexplored || coords_view(stack@).contains(
                                            coords_view(nbrs@)[q],
                                        ),
                                    self.solved() >= solved_count(b1) + (if cell_at(
                                        self.board(),
                                        x as int,
                                        y as int,
                                    ) is Number {
                                        1int
                                    } else {
                                        0int
                                    }),
                                    0 <= unexplored_count(self.board()),
                                    unexplored_count(self.board()) == unexplored_count(bpre) - 1,
                                    adj_mines(b1, wd, ht, x as int, y as int) == 0,
                                    chain_parented(b1, self.board(), wd, ht, x as int, y as int),
                                    forall|k: int|
                                        0 <= k < stack@.len() ==> (#[trigger] stack@[k] == (x, y)
                                            || has_zero_parent(
                                            b1,
                                            self.board(),
                                            wd,
                                            ht,
                                            stack@[k].0 as int,
                                            stack@[k].1 as int,
                                        )),
                                decreases nbrs@.len() - q2,
                            {
                                let (nx, ny) = nbrs[q2];
                                proof {
                                    assert(coords_view(nbrs@)[q2 as int] == (nx as int, ny as int));
                                }
                                let nd = self.dot_at(nx, ny);
                                if nd == Dot::Unexplored {
                                    let ghost stackpre = stack@;
                                    stack.push((nx, ny));
                                    proof {
                                        assert(stack@ =~= stackpre.push((nx, ny)));
                                        assert(forall|k: int|
                                            0 <= k < stackpre.len() ==> #[trigger] stack@[k]
                                                == stackpre[k]);
                                        assert forall|p: (int, int)|
                                            coords_view(stackpre).contains(
                                                p,
                                            ) implies coords_view(stack@).contains(p) by {
                                            let k = choose|k: int|
                                                0 <= k < coords_view(stackpre).len()
                                                    && coords_view(stackpre)[k] == p;
                                            assert(coords_view(stack@)[k] == p);
                                        }
                                        assert(coords_view(stack@)[stackpre.len() as int] == (
                                            nx as int,
                                            ny as int,
                                        ));
                                        assert(coords_view(stack@).contains((nx as int, ny as int)));
                                        assert(neighbors_of(wd, ht, cx as int, cy as int)[q2 as int]
                                            == (nx as int, ny as int));
                                        assert(neighbors_of(wd, ht, cx as int, cy as int).contains(
                                            (nx as int, ny as int),
                                        ));
                                        lemma_neighbors_symmetric(
                                            wd,
                                            ht,
                                            cx as int,
                                            cy as int,
                                            (nx as int, ny as int),
                                        );
                                        let nn = neighbors_of(wd, ht, nx as int, ny as int);
                                        let qq = choose|qq: int|
                                            0 <= qq < nn.len() && nn[qq] == (cx as int, cy as int);
                                        assert(cell_at(b1, nn[qq].0, nn[qq].1) == Dot::Unexplored);
                                        assert(cell_at(self.board(), nn[qq].0, nn[qq].1)
                                            == Dot::Number(0u64));
                                        assert(has_zero_parent(
                                            b1,
                                            self.board(),
                                            wd,
                                            ht,
                                            nx as int,
                                            ny as int,
                                        ));
                                        assert(stack@[stackpre.len() as int] == (nx, ny));
                                    }
                                }
                                q2 += 1;
                            }
                        } else {
                            proof {
                                assert(cell_at(self.board(), cx as int, cy as int) != Dot::Number(
                                    0u64,
                                ));
                            }
                        }
                    } else {
                        proof {
                            assert(cell_at(self.board(), cx as int, cy as int) != Dot::Unexplored);
                            if adj_mines(b1, wd, ht, x as int, y as int) != 0 {
                                assert(stack0.len() > 0);
                                assert(self.board() == b1 && stack0 == seq![(x, y)]);
                                assert(stack0[0] == (x, y));
                                assert((cx, cy) == (x, y));
                                assert(cell_at(self.board(), cx as int, cy as int)
                                    == Dot::Unexplored);
                                assert(false);
                            }
                            assert forall|k: int| 0 <= k < stack@.len() implies (
                            #[trigger] stack@[k] == (x, y) || has_zero_parent(
                                b1,
                                self.board(),
                                wd,
                                ht,
                                stack@[k].0 as int,
                                stack@[k].1 as int,
                            )) by {
                                assert(stack@[k] == stack0[k]);
                            }
                            assert forall|i: int, j: int|
                                in_grid(wd, ht, i, j) && cell_at(b1, i, j) == Dot::Unexplored
                                    && #[trigger] cell_at(self.board(), i, j) == Dot::Number(
                                    0u64,
                                ) implies (forall|q: int|
                                0 <= q < neighbors_of(wd, ht, i, j).len() ==> cell_at(
                                    self.board(),
                                    (#[trigger] neighbors_of(wd, ht, i, j)[q]).0,
                                    neighbors_of(wd, ht, i, j)[q].1,
                                ) != Dot::Unexplored || coords_view(stack@).contains(
                                    neighbors_of(wd, ht, i, j)[q],
                                )) by {
                                assert forall|q: int|
                                    0 <= q < neighbors_of(wd, ht, i, j).len() implies cell_at(
                                    self.board(),
                                    (#[trigger] neighbors_of(wd, ht, i, j)[q]).0,
                                    neighbors_of(wd, ht, i, j)[q].1,
                                ) != Dot::Unexplored || coords_view(stack@).contains(
                                    neighbors_of(wd, ht, i, j)[q],
                                ) by {
                                    let p = neighbors_of(wd, ht, i, j)[q];
                                    if cell_at(self.board(), p.0, p.1) == Dot::Unexplored {
                                        assert(coords_view(stack0).contains(p));
                                        assert(p != (cx as int, cy as int));
                                        assert(coords_view(stack@).contains(p));
                                    }
                                }
                            }
                        }
                    }
                }
                proof {
                    assert(coords_view(stack@).len() == 0);
                    assert forall|p: (int, int)| !coords_view(stack@).contains(p) by {
                        if coords_view(stack@).contains(p) {
                            let k = choose|k: int|
                                0 <= k < coords_view(stack@).len() && coords_view(stack@)[k] == p;
                        }
                    }
                    assert(cell_at(self.board(), x as int, y as int) is Number);
                    assert(zeros_saturated(b1, self.board(), wd, ht));
                    if adj_mines(b1, wd, ht, x as int, y as int) != 0 {
                        assert(stack@.len() == 0);
                        assert(only_cell_changed(b1, self.board(), wd, ht, x as int, y as int));
                    }
                    if !old(self).scattered() {
                        lemma_grid_count_pointwise(b1, self.board(), wd, ht, mine_pred());
                        assert forall|i: int, j: int|
                            in_grid(wd, ht, i, j) && (i != x as int || j != y as int) && cell_at(
                                old(self).board(),
                                i,
                                j,
                            ) == Dot::Unexplored && #[trigger] cell_at(self.board(), i, j)
                            is Number implies has_zero_parent(
                            old(self).board(),
                            self.board(),
                            wd,
                            ht,
                            i,
                            j,
                        ) by {
                            assert(cell_at(b1, i, j) == Dot::Unexplored);
                            assert(has_zero_parent(b1, self.board(), wd, ht, i, j));
                            let nn = neighbors_of(wd, ht, i, j);
                            let q = choose|q: int|
                                0 <= q < nn.len() && cell_at(b1, (#[trigger] nn[q]).0, nn[q].1)
                                    == Dot::Unexplored && cell_at(
                                    self.board(),
                                    nn[q].0,
                                    nn[q].1,
                                ) == Dot::Number(0u64);
                            lemma_neighbors_in_grid(wd, ht, i, j);
                            assert(cell_at(old(self).board(), nn[q].0, nn[q].1)
                                == Dot::Unexplored);
                        }
                    }
                }
                if self.is_clear() {
                    Ok(Swept::Clear)
                } else {
                    Ok(Swept::Safe)
                }
            },
        }
    }

    /// Toggles the player's flag at `(x, y)`. Before the first reveal
    /// there are no mines to flag, so the call is rejected with `Stay`
    /// and changes nothing. A flag on a mine solves that cell and can
    /// win the game; unflagging it unsolves it; flags on safe cells are
    /// annotations that move no counter; a revealed cell stays as it is.
    pub fn flag(&mut self, x: usize, y: usize) -> (res: Result<Swept, GameError>)
        requires
            old(self).wf(),
        ensures
            final(self).wf(),
            final(self).width() == old(self).width(),
            final(self).height() == old(self).height(),
            final(self).level() == old(self).level(),
            final(self).scattered() == old(self).scattered(),
            final(self).solved() == solved_count(final(self).board()),
            numbers_correct(final(self).board(), old(self).width(), old(self).height()),
            !old(self).scattered() ==> res == Ok::<Swept, GameError>(Swept::Stay) && *final(self)
                == *old(self),
            old(self).scattered() && !in_grid(
                old(self).width(),
                old(self).height(),
                x as int,
                y as int,
            ) ==> res == Err::<Swept, GameError>(GameError::OutOfBounds) && *final(self) == *old(
                self,
            ),
            old(self).scattered() && in_grid(
                old(self).width(),
                old(self).height(),
                x as int,
                y as int,
            ) ==> {
                &&& final(self).board() == flag_board(old(self).board(), x as int, y as int)
                &&& final(self).solved() == old(self).solved() + flag_delta(
                    cell_at(old(self).board(), x as int, y as int),
                )
                &&& (cell_at(old(self).board(), x as int, y as int) == Dot::Mine ==> res
                    == Ok::<Swept, GameError>(
                    if final(self).solved() == old(self).width() * old(self).height() {
                        Swept::Clear
                    } else {
                        Swept::Safe
                    },
                ))
                &&& (cell_at(old(self).board(), x as int, y as int) == Dot::FlaggedMine ==> res
                    == Ok::<Swept, GameError>(Swept::Safe))
                &&& (cell_at(old(self).board(), x as int, y as int) == Dot::Unexplored ==> res
                    == Ok::<Swept, GameError>(Swept::Safe))
                &&& (cell_at(old(self).board(), x as int, y as int) == Dot::FlaggedSafe ==> res
                    == Ok::<Swept, GameError>(Swept::Safe))
                &&& (cell_at(old(self).board(), x as int, y as int) is Number ==> res
                    == Ok::<Swept, GameError>(Swept::Stay) && *final(self) == *old(self))
            },
    {
        if !self.is_scattered {
            return Ok(Swept::Stay);
        }
        if !(x < self.w && y < self.h) {
            return Err(GameError::OutOfBounds);
        }
        let ghost b0 = self.board();
        let ghost wd = self.width();
        let ghost ht = self.height();
        proof {
            assert(wd * ht <= wd * ht * 20) by (nonlinear_arith)
                requires wd >= 0, ht >= 0;
            lemma_grid_count_bounds(b0, wd, ht, solved_pred());
        }
        let d = self.dot_at(x, y);
        match d {
            Dot::Mine => {
                self.set_dot(x, y, Dot::FlaggedMine);
                proof {
                    lemma_flag_step(b0, self.board(), wd, ht, x as int, y as int, Dot::FlaggedMine);
                    lemma_grid_count_bounds(self.board(), wd, ht, solved_pred());
                }
                self.collect_dots += 1;
                if self.is_clear() {
                    Ok(Swept::Clear)
                } else {
                    Ok(Swept::Safe)
                }
            },
            Dot::FlaggedMine => {
                self.set_dot(x, y, Dot::Mine);
                proof {
                    lemma_flag_step(b0, self.board(), wd, ht, x as int, y as int, Dot::Mine);
                    lemma_grid_count_bounds(self.board(), wd, ht, solved_pred());
                }
                self.collect_dots -= 1;
                Ok(Swept::Safe)
            },
            Dot::Unexplored => {
                self.set_dot(x, y, Dot::FlaggedSafe);
                proof {
                    lemma_flag_step(b0, self.board(), wd, ht, x as int, y as int, Dot::FlaggedSafe);
                }
                Ok(Swept::Safe)
            },
            Dot::FlaggedSafe => {
                self.set_dot(x, y, Dot::Unexplored);
                proof {
                    lemma_flag_step(b0, self.board(), wd, ht, x as int, y as int, Dot::Unexplored);
                }
                Ok(Swept::Safe)
            },
            Dot::Number(_) => {
                proof {
                    assert(b0[y as int].update(x as int, b0[y as int][x as int]) =~= b0[y as int]);
                    assert(flag_board(b0, x as int, y as int) =~= b0);
                }
                Ok(Swept::Stay)
            },
        }
    }

    /// The display projection: the board as the player may see it.
    /// Unexplored cells and unrevealed mines both show as the empty
    /// string, so mine positions are never disclosed; flags show as
    /// `"flag"`; a revealed cell shows its count as a decimal digit.
    pub fn show(&self) -> (r: Vec<Vec<String>>)
        requires
            self.wf(),
        ensures
            r@.len() == self.height(),
            forall|j: int| 0 <= j < self.height() ==> (#[trigger] r@[j])@.len() == self.width(),
            forall|i: int, j: int|
                in_grid(self.width(), self.height(), i, j) ==> (#[trigger] r@[j]@[i])@
                    == dot_label(cell_at(self.board(), i, j)),
    {
        let mut rows: Vec<Vec<String>> = Vec::new();
        let mut y: usize = 0;
        while y < self.h
            invariant
                y <= self.height(),
                self.wf(),
                rows@.len() == y,
                forall|j: int| 0 <= j < y ==> (#[trigger] rows@[j])@.len() == self.width(),
                forall|i: int, j: int|
                    0 <= j < y && 0 <= i < self.width() ==> (#[trigger] rows@[j]@[i])@
                        == dot_label(cell_at(self.board(), i, j)),
            decreases self.height() - y,
        {
            let mut row: Vec<String> = Vec::new();
            let mut x: usize = 0;
            while x < self.w
                invariant
                    x <= self.width(),
                    y < self.height(),
                    self.wf(),
                    row@.len() == x,
                    forall|i: int|
                        0 <= i < x ==> (#[trigger] row@[i])@ == dot_label(
                            cell_at(self.board(), i, y as int),
                        ),
                decreases self.width() - x,
            {
                let d = self.dot_at(x, y);
                let s: String = match d {
                    Dot::Unexplored => {
                        proof {
                            reveal_strlit("");
                        }
                        String::new()
                    },
                    Dot::Mine => {
                        proof {
                            reveal_strlit("");
                        }
                        String::new()
                    },
                    Dot::FlaggedSafe => "flag".to_owned(),
                    Dot::FlaggedMine => "flag".to_owned(),
                    Dot::Number(n) => {
                        proof {
                            lemma_adj_mines_bounds(
                                self.board(),
                                self.width(),
                                self.height(),
                                x as int,
                                y as int,
                            );
                        }
                        digit_string(n)
                    },
                };
                row.push(s);
                x += 1;
            }
            rows.push(row);
            y += 1;
        }
        rows
    }

    /// Whether every cell is correctly accounted for, which is the win
    /// condition.
    pub fn is_clear(&self) -> (r: bool)
        requires
            self.wf(),
        ensures
            r == (self.solved() == self.width() * self.height()),
    {
        proof {
            assert(self.width() * self.height() <= self.width() * self.height() * 20)
                by (nonlinear_arith)
                requires self.width() >= 0 && self.height() >= 0;
        }
        self.collect_dots == self.w * self.h
    }
}

/// A row of `w` unexplored cells.
fn fresh_row(w: usize) -> (r: Vec<Dot>)
    ensures
        r@.len() == w,
        forall|x: int| 0 <= x < w ==> #[trigger] r@[x] == Dot::Unexplored,
{
    let mut r: Vec<Dot> = Vec::new();
    let mut x: usize = 0;
    while x < w
        invariant
            x <= w,
            r@.len() == x,
            forall|i: int| 0 <= i < x ==> #[trigger] r@[i] == Dot::Unexplored,
        decreases w - x,
    {
        r.push(Dot::Unexplored);
        x += 1;
    }
    r
}

/// A `w` by `h` board of unexplored cells.
fn fresh_board(w: usize, h: usize) -> (b: Vec<Vec<Dot>>)
    ensures
        grid_dims(rows_view(b@), w as int, h as int),
        all_unexplored(rows_view(b@), w as int, h as int),
{
    let mut b: Vec<Vec<Dot>> = Vec::new();
    let mut y: usize = 0;
    while y < h
        invariant
            y <= h,
            b@.len() == y,
            forall|j: int| 0 <= j < y ==> (#[trigger] rows_view(b@)[j]).len() == w,
            forall|x: int, j: int|
                0 <= j < y && 0 <= x < w ==> #[trigger] cell_at(rows_view(b@), x, j)
                    == Dot::Unexplored,
        decreases h - y,
    {
        let row = fresh_row(w);
        let ghost bpre = b@;
        b.push(row);
        proof {
            assert(b@ == bpre.push(row));
            assert(forall|j: int| 0 <= j < y ==> #[trigger] b@[j] == bpre[j]);
            assert(rows_view(b@)[y as int] == row@);
            assert forall|j: int| 0 <= j < y implies (#[trigger] rows_view(b@)[j]).len() == w by {
                assert(rows_view(b@)[j] == b@[j]@);
                assert(rows_view(bpre)[j] == bpre[j]@);
            }
            assert forall|x: int, j: int| 0 <= j <= y && 0 <= x < w implies #[trigger] cell_at(
                rows_view(b@),
                x,
                j,
            ) == Dot::Unexplored by {
                assert(rows_view(b@)[j] == b@[j]@);
                if j < y {
                    assert(rows_view(bpre)[j] == bpre[j]@);
                    assert(cell_at(rows_view(bpre), x, j) == Dot::Unexplored);
                } else {
                    assert(b@[j]@ == row@);
                }
            }
        }
        y += 1;
    }
    b
}

/// How many of the first `j` offset positions of the three-by-three block
/// around a cell are real neighbour offsets: position 4, the cell itself,
/// does not count.
spec fn processed_offsets(j: int) -> int {
    if j <= 4 {
        j
    } else {
        j - 1
    }
}

/// A board small enough for the mine-count arithmetic has every dimension
/// and coordinate comfortably inside the signed 64-bit range.
proof fn lemma_size_bounds(w: int, h: int)
    requires
        w * h * 20 + 99 <= usize::MAX,
        w >= 1,
        h >= 1,
    ensures
        w <= 0x1000_0000_0000_0000,
        h <= 0x1000_0000_0000_0000,
{
    assert(w <= w * h) by (nonlinear_arith)
        requires w >= 1, h >= 1;
    assert(h <= w * h) by (nonlinear_arith)
        requires w >= 1, h >= 1;
    assert(w * h <= 0x1000_0000_0000_0000) by (nonlinear_arith)
        requires w * h * 20 + 99 <= usize::MAX, w * h >= 1;
}

/// A revealed-zero parent outlives a reveal elsewhere: turning one more
/// unexplored cell into a count cannot take away another cell's
/// revealed-zero neighbour.
proof fn lemma_zero_parent_survives(
    b1: Seq<Seq<Dot>>,
    bpre: Seq<Seq<Dot>>,
    bpost: Seq<Seq<Dot>>,
    w: int,
    h: int,
    cx: int,
    cy: int,
    n: u64,
    i: int,
    j: int,
)
    requires
        has_zero_parent(b1, bpre, w, h, i, j),
        grid_dims(bpre, w, h),
        in_grid(w, h, cx, cy),
        cell_at(bpre, cx, cy) == Dot::Unexplored,
        bpost == update_cell(bpre, cx, cy, Dot::Number(n)),
    ensures
        has_zero_parent(b1, bpost, w, h, i, j),
{
    let nn = neighbors_of(w, h, i, j);
    let q = choose|q: int|
        0 <= q < nn.len() && cell_at(b1, (#[trigger] nn[q]).0, nn[q].1) == Dot::Unexplored
            && cell_at(bpre, nn[q].0, nn[q].1) == Dot::Number(0u64);
    let p = nn[q];
    lemma_update_cell(bpre, w, h, cx, cy, Dot::Number(n));
    lemma_neighbors_in_grid(w, h, i, j);
    assert(p.0 != cx || p.1 != cy);
    assert(cell_at(bpost, p.0, p.1) == Dot::Number(0u64));
}

/// Toggling a flag replaces one never-revealed cell by another that hides
/// the same underlying fact, so the board's dimensions, its mine
/// positions, every other cell, and the truth of every revealed count
/// carry over; the solved count moves exactly by what the toggle did.
proof fn lemma_flag_step(b0: Seq<Seq<Dot>>, b1: Seq<Seq<Dot>>, w: int, h: int, x: int, y: int, d: Dot)
    requires
        grid_dims(b0, w, h),
        in_grid(w, h, x, y),
        numbers_correct(b0, w, h),
        b1 == update_cell(b0, x, y, d),
        is_mine_dot(d) == is_mine_dot(cell_at(b0, x, y)),
        !(d is Number),
        !(cell_at(b0, x, y) is Number),
    ensures
        grid_dims(b1, w, h),
        cell_at(b1, x, y) == d,
        forall|i: int, j: int|
            in_grid(w, h, i, j) && (i != x || j != y) ==> #[trigger] cell_at(b1, i, j) == cell_at(
                b0,
                i,
                j,
            ),
        mines_agree(b0, b1, w, h),
        numbers_correct(b1, w, h),
        solved_count(b1) == solved_count(b0) - (if is_solved_dot(cell_at(b0, x, y)) {
            1int
        } else {
            0int
        }) + (if is_solved_dot(d) {
            1int
        } else {
            0int
        }),
{
    lemma_update_cell(b0, w, h, x, y, d);
    lemma_grid_count_update(b0, w, h, x, y, d, solved_pred());
    assert forall|i: int, j: int| in_grid(w, h, i, j) implies is_mine_dot(
        #[trigger] cell_at(b1, i, j),
    ) == is_mine_dot(cell_at(b0, i, j)) by {
        if i == x && j == y {
        } else {
            assert(cell_at(b1, i, j) == cell_at(b0, i, j));
        }
    }
    assert forall|i: int, j: int|
        in_grid(w, h, i, j) && #[trigger] cell_at(b1, i, j) is Number implies cell_at(
        b1,
        i,
        j,
    )->Number_0 == adj_mines(b1, w, h, i, j) by {
        assert(cell_at(b1, i, j) == cell_at(b0, i, j));
        lemma_adj_mines_agree(b0, b1, w, h, i, j);
    }
}

/// Revealing an unexplored cell as its true adjacent-mine count keeps the
/// board's dimensions and mine positions, keeps every revealed count
/// true, raises the solved count by one and lowers the unexplored count
/// by one.
proof fn lemma_reveal_cell(b0: Seq<Seq<Dot>>, b1: Seq<Seq<Dot>>, w: int, h: int, x: int, y: int, n: u64)
    requires
        grid_dims(b0, w, h),
        in_grid(w, h, x, y),
        numbers_correct(b0, w, h),
        cell_at(b0, x, y) == Dot::Unexplored,
        n as int == adj_mines(b0, w, h, x, y),
        b1 == update_cell(b0, x, y, Dot::Number(n)),
    ensures
        grid_dims(b1, w, h),
        cell_at(b1, x, y) == Dot::Number(n),
        forall|i: int, j: int|
            in_grid(w, h, i, j) && (i != x || j != y) ==> #[trigger] cell_at(b1, i, j) == cell_at(
                b0,
                i,
                j,
            ),
        mines_agree(b0, b1, w, h),
        numbers_correct(b1, w, h),
        solved_count(b1) == solved_count(b0) + 1,
        unexplored_count(b1) == unexplored_count(b0) - 1,
{
    lemma_update_cell(b0, w, h, x, y, Dot::Number(n));
    lemma_grid_count_update(b0, w, h, x, y, Dot::Number(n), solved_pred());
    lemma_grid_count_update(b0, w, h, x, y, Dot::Number(n), unexplored_pred());
    assert forall|i: int, j: int| in_grid(w, h, i, j) implies is_mine_dot(
        #[trigger] cell_at(b1, i, j),
    ) == is_mine_dot(cell_at(b0, i, j)) by {
        if i == x && j == y {
        } else {
            assert(cell_at(b1, i, j) == cell_at(b0, i, j));
        }
    }
    assert forall|i: int, j: int|
        in_grid(w, h, i, j) && #[trigger] cell_at(b1, i, j) is Number implies cell_at(
        b1,
        i,
        j,
    )->Number_0 == adj_mines(b1, w, h, i, j) by {
        lemma_adj_mines_agree(b0, b1, w, h, i, j);
        if i == x && j == y {
        } else {
            assert(cell_at(b1, i, j) == cell_at(b0, i, j));
        }
    }
}

/// Reads the cell at `(x, y)` of an owned board.
fn get_cell(b: &Vec<Vec<Dot>>, x: usize, y: usize) -> (d: Dot)
    requires
        y < b@.len(),
        x < b@[y as int]@.len(),
    ensures
        d == cell_at(rows_view(b@), x as int, y as int),
{
    proof {
        assert(rows_view(b@)[y as int] == b@[y as int]@);
    }
    b[y][x]
}

/// Replaces the cell at `(x, y)` of an owned board, leaving every other
/// cell alone.
fn set_cell(b: &mut Vec<Vec<Dot>>, x: usize, y: usize, d: Dot)
    requires
        y < old(b)@.len(),
        x < old(b)@[y as int]@.len(),
    ensures
        rows_view(final(b)@) == update_cell(rows_view(old(b)@), x as int, y as int, d),
{
    proof {
        assert(rows_view(b@)[y as int] == b@[y as int]@);
    }
    b[y][x] = d;
    proof {
        assert(rows_view(b@) =~= update_cell(rows_view(old(b)@), x as int, y as int, d));
    }
}

} // verus!
