//! The tiled engine: the grid cut into square tiles that each lie in one
//! piece of memory. Neighbouring tiles share their border: the last row of a
//! tile is the first row of the tile below it, and the last column is the
//! first column of the tile to its right, around the torus. A cell on such a
//! border is held by every tile that it belongs to, and all its copies agree.
use crate::automaton::pattern::{PatternError, PatternSpec};
use crate::automaton::tiles::{
    all_before, always, border_of, border_part, coherent, extent, flattened, in_tiles, inner_before,
    inner_of, inner_part, is_tiling, lemma_coherent_has_seams, lemma_flattened, lemma_next_tiles,
    lemma_pos, lemma_pos_before, lemma_renewed_again, lemma_renewed_same, lemma_renewed_union,
    lemma_seams_make_coherent, lemma_store_coherent, lemma_with_copies, one_cell, pos, renewed,
    seams_agree, tile_after, tile_before, tile_cell, tiles_of, with_copies, TiledAutomatonView,
    TiledGrid, TILE_AREA, TILE_SIZE, TILE_STEP,
};
use crate::digits::{lemma_pow_monotone, lemma_pow_step};
use crate::lattice::{
    is_grid, lemma_neighbourhood_bound, lemma_scaled_coord, lemma_side_fits, lemma_step_is_grid,
    lemma_torus_cell, neighbourhood, neighbourhood_index, next_state, torus_cell,
};
use crate::rule::{side_of, Rule};
use crate::sampling::random_state;
use crate::symmetry::{cell, cell_count, lemma_cell_coords, lemma_cell_split};
use vstd::arithmetic::div_mod::*;
use vstd::arithmetic::power::*;
use vstd::prelude::*;

verus! {

/// A neighbourhood of radius one has nine cells.
proof fn lemma_nine_cells()
    ensures
        side_of(1) == 3,
        cell_count(side_of(1)) == 9,
        cell_count(3) == 9,
{
}

/// Nine cells in a row stand for a 3 by 3 neighbourhood: this is its number.
fn patch_index(
    patch: &[u8; 9],
    states: u8,
    Ghost(grid): Ghost<Seq<u8>>,
    Ghost(n): Ghost<int>,
    Ghost(row): Ghost<int>,
    Ghost(col): Ghost<int>,
) -> (ind: usize)
    requires
        is_grid(grid, n, states as int),
        n >= 1,
        pow(states as int, 9) <= usize::MAX,
        forall|k: int|
            0 <= k < 9
                ==> #[trigger] patch[k] == torus_cell(grid, n, row + k / 3 - 1, col + k % 3 - 1),
    ensures
        ind == neighbourhood_index(grid, n, states as int, 1, row, col),
        ind < pow(states as int, 9),
{
    let base = states as usize;
    let ghost s = states as int;
    let mut ind: usize = 0;
    let mut power: usize = 1;
    let mut k: usize = 0;
    proof {
        lemma_pow0(s);
        lemma_torus_cell(grid, n, s, 0, 0);
    }
    while k < 9
        invariant
            k <= 9,
            s == states,
            base == states,
            s >= 1,
            n >= 1,
            is_grid(grid, n, s),
            pow(s, 9) <= usize::MAX,
            forall|j: int|
                0 <= j < 9 ==> #[trigger] patch[j] == torus_cell(
                    grid,
                    n,
                    row + j / 3 - 1,
                    col + j % 3 - 1,
                ),
            ind == neighbourhood(grid, n, s, 1, row, col, k as nat),
            power == pow(s, k as nat),
        decreases 9 - k,
    {
        let current_val = patch[k] as usize;
        proof {
            lemma_nine_cells();
            lemma_neighbourhood_bound(grid, n, s, 1, row, col, (k + 1) as nat);
            lemma_pow_monotone(s, (k + 1) as nat, 9);
            lemma_pow_step(s, k as nat);
            lemma_pow_positive(s, k as nat);
            assert(power * current_val == current_val * power) by (nonlinear_arith);
            assert(0 <= current_val * power) by (nonlinear_arith)
                requires
                    0 <= current_val,
                    0 < power,
            ;
        }
        ind = ind + power * current_val;
        power = power * base;
        k = k + 1;
    }
    proof {
        lemma_nine_cells();
        lemma_neighbourhood_bound(grid, n, s, 1, row, col, 9);
    }
    ind
}

/// A buffer of `count` tiles with every cell in state 0.
fn blank_tiles(count: usize) -> (grid: TiledGrid)
    ensures
        grid@.len() == count,
        forall|t: int, k: int|
            0 <= t < count && 0 <= k < TILE_AREA ==> #[trigger] tiles_of(grid@)[t][k] == 0,
{
    let mut tile = [0u8; TILE_AREA];
    let mut k: usize = 0;
    while k < TILE_AREA
        invariant
            k <= TILE_AREA,
            forall|j: int| 0 <= j < k ==> #[trigger] tile@[j] == 0,
        decreases TILE_AREA - k,
    {
        tile[k] = 0;
        k = k + 1;
    }
    let mut grid: TiledGrid = Vec::new();
    let mut i: usize = 0;
    while i < count
        invariant
            i <= count,
            grid@.len() == i,
            forall|j: int| 0 <= j < TILE_AREA ==> #[trigger] tile@[j] == 0,
            forall|t: int, j: int|
                0 <= t < i && 0 <= j < TILE_AREA ==> #[trigger] grid@[t]@[j] == 0,
        decreases count - i,
    {
        grid.push(tile);
        i = i + 1;
    }
    grid
}

/// The tiled engine. Of its two buffers of tiles one holds the grid; an
/// update writes the next grid into the other and then exchanges their roles.
pub struct TiledAutomaton {
    size: usize,
    n_tiles: usize,
    states: u8,
    flop: bool,
    grid1: TiledGrid,
    grid2: TiledGrid,
    rule: Rule,
}

impl View for TiledAutomaton {
    type V = TiledAutomatonView;

    closed spec fn view(&self) -> TiledAutomatonView {
        TiledAutomatonView {
            size: self.size,
            n_tiles: self.n_tiles,
            states: self.states,
            flop: self.flop,
            tiles: if self.flop {
                tiles_of(self.grid1@)
            } else {
                tiles_of(self.grid2@)
            },
            prev_tiles: if self.flop {
                tiles_of(self.grid2@)
            } else {
                tiles_of(self.grid1@)
            },
            rule: self.rule@,
        }
    }
}

impl TiledAutomaton {
    /// The automaton is well formed.
    pub open spec fn wf(&self) -> bool {
        self@.wf()
    }

    /// Both buffers are tilings for the number of tiles of the automaton.
    pub open spec fn has_shape(&self) -> bool {
        is_tiling(self@.tiles, self@.n_tiles as int) && is_tiling(
            self@.prev_tiles,
            self@.n_tiles as int,
        )
    }

    /// Both buffers fit in memory.
    proof fn lemma_buffers_fit(&self)
        ensures
            self@.tiles.len() <= usize::MAX,
            self@.prev_tiles.len() <= usize::MAX,
    {
        assert(self.grid1.len() == self.grid1@.len());
        assert(self.grid2.len() == self.grid2@.len());
    }

    /// The side of the grid that was asked for.
    pub fn size(&self) -> (n: usize)
        ensures
            n == self@.size,
    {
        self.size
    }

    /// The number of tiles a side.
    pub fn n_tiles(&self) -> (n: usize)
        ensures
            n == self@.n_tiles,
    {
        self.n_tiles
    }

    /// The number of states of a cell.
    pub fn states(&self) -> (s: u8)
        ensures
            s == self@.states,
    {
        self.states
    }

    /// Which of the two buffers holds the grid. Every update changes it.
    pub fn flop(&self) -> (f: bool)
        ensures
            f == self@.flop,
    {
        self.flop
    }

    /// The rule.
    pub fn rule(&self) -> (r: &Rule)
        ensures
            r@ == self@.rule,
    {
        &self.rule
    }

    /// The buffer that holds the grid, for writing. Nothing keeps the copies
    /// of a cell in agreement or the cells among the states.
    pub fn grid(&mut self) -> (g: &mut TiledGrid)
        ensures
            tiles_of(g@) == old(self)@.tiles,
            final(self)@ == (TiledAutomatonView { tiles: tiles_of(final(g)@), ..old(self)@ }),
    {
        if self.flop {
            &mut self.grid1
        } else {
            &mut self.grid2
        }
    }

    /// The buffer that does not hold the grid, for writing. The next update
    /// overwrites all of it.
    pub fn prev_grid(&mut self) -> (g: &mut TiledGrid)
        ensures
            tiles_of(g@) == old(self)@.prev_tiles,
            final(self)@ == (TiledAutomatonView { prev_tiles: tiles_of(final(g)@), ..old(self)@ }),
    {
        if self.flop {
            &mut self.grid2
        } else {
            &mut self.grid1
        }
    }

    /// Writes one cell of one tile, in the other buffer where `next` is set
    /// and in the buffer of the grid where it is not.
    fn put(&mut self, next: bool, t: usize, k: usize, state: u8)
        requires
            old(self).has_shape(),
            t < old(self)@.tiles.len(),
            k < TILE_AREA,
        ensures
            next ==> final(self)@ == (TiledAutomatonView {
                prev_tiles: old(self)@.prev_tiles.update(
                    t as int,
                    old(self)@.prev_tiles[t as int].update(k as int, state),
                ),
                ..old(self)@
            }),
            !next ==> final(self)@ == (TiledAutomatonView {
                tiles: old(self)@.tiles.update(
                    t as int,
                    old(self)@.tiles[t as int].update(k as int, state),
                ),
                ..old(self)@
            }),
    {
        if next == self.flop {
            self.grid2[t][k] = state;
            assert(tiles_of(self.grid2@) =~~= tiles_of(old(self).grid2@).update(
                t as int,
                tiles_of(old(self).grid2@)[t as int].update(k as int, state),
            ));
        } else {
            self.grid1[t][k] = state;
            assert(tiles_of(self.grid1@) =~~= tiles_of(old(self).grid1@).update(
                t as int,
                tiles_of(old(self).grid1@)[t as int].update(k as int, state),
            ));
        }
    }

    /// Writes a cell of the grid in every tile that holds a copy of it: the
    /// tile that it lies in and, where it lies on the first row or column of
    /// that tile, the tiles before it.
    fn store(&mut self, next: bool, tx: usize, ty: usize, x: usize, y: usize, state: u8)
        requires
            old(self).has_shape(),
            tx < old(self)@.n_tiles,
            ty < old(self)@.n_tiles,
            x < 256,
            y < 256,
        ensures
            final(self).has_shape(),
            next ==> final(self)@ == (TiledAutomatonView {
                prev_tiles: final(self)@.prev_tiles,
                ..old(self)@
            }) && renewed(
                final(self)@.prev_tiles,
                old(self)@.prev_tiles,
                old(self)@.n_tiles as int,
                one_cell(tx * 256 + x, ty * 256 + y),
                always(state),
            ),
            !next ==> final(self)@
                == (TiledAutomatonView { tiles: final(self)@.tiles, ..old(self)@ })
                && renewed(
                final(self)@.tiles,
                old(self)@.tiles,
                old(self)@.n_tiles as int,
                one_cell(tx * 256 + x, ty * 256 + y),
                always(state),
            ),
    {
        let nt = self.n_tiles;
        let ghost n = nt as int;
        let ghost before = if next {
            self@.prev_tiles
        } else {
            self@.tiles
        };
        proof {
            self.lemma_buffers_fit();
            lemma_side_fits(n);
        }
        let prev_x = (tx + nt - 1) % nt;
        let prev_y = (ty + nt - 1) % nt;
        proof {
            assert(prev_x == tile_before(n, tx as int)) by {
                if tx == 0 {
                    lemma_small_mod((nt - 1) as nat, nt as nat);
                } else {
                    lemma_mod_add_multiples_vanish(tx - 1, n);
                    lemma_small_mod((tx - 1) as nat, nt as nat);
                }
            }
            assert(prev_y == tile_before(n, ty as int)) by {
                if ty == 0 {
                    lemma_small_mod((nt - 1) as nat, nt as nat);
                } else {
                    lemma_mod_add_multiples_vanish(ty - 1, n);
                    lemma_small_mod((ty - 1) as nat, nt as nat);
                }
            }
            lemma_cell_coords(n, tx as int, ty as int);
            lemma_cell_coords(n, prev_x as int, ty as int);
            lemma_cell_coords(n, tx as int, prev_y as int);
            lemma_cell_coords(n, prev_x as int, prev_y as int);
        }
        self.put(next, tx * nt + ty, x * TILE_SIZE + y, state);
        if x == 0 {
            self.put(next, prev_x * nt + ty, TILE_STEP * TILE_SIZE + y, state);
        }
        if y == 0 {
            self.put(next, tx * nt + prev_y, x * TILE_SIZE + TILE_STEP, state);
        }
        if x == 0 && y == 0 {
            self.put(next, prev_x * nt + prev_y, TILE_STEP * TILE_SIZE + TILE_STEP, state);
        }
        proof {
            lemma_with_copies(before, n, tx as int, ty as int, x as int, y as int, state);
            let after = if next {
                self@.prev_tiles
            } else {
                self@.tiles
            };
            assert(after
                == with_copies(before, n, tx as int, ty as int, x as int, y as int, state));
        }
    }
    /// The neighbourhood number of the cell at `(x, y)` of the tile at
    /// `(tx, ty)`. Where the caller vouches for a cell that is not on the
    /// first row or column (`shared` is false), the neighbours are all read
    /// from the tile itself; otherwise those above the first row and left of
    /// the first column are read from the tiles before it.
    fn neighbourhood_of(&self, tx: usize, ty: usize, x: usize, y: usize, shared: bool) -> (ind:
        usize)
        requires
            self.wf(),
            tx < self@.n_tiles,
            ty < self@.n_tiles,
            x < 256,
            y < 256,
            shared || (x >= 1 && y >= 1),
        ensures
            ind == neighbourhood_index(
                self@.cells(),
                self@.extent(),
                self@.states as int,
                1,
                tx * 256 + x,
                ty * 256 + y,
            ),
            ind < self@.rule.table.len(),
    {
        let nt = self.n_tiles;
        let cur = if self.flop {
            &self.grid1
        } else {
            &self.grid2
        };
        let ghost count = cur.len();
        let ghost n = nt as int;
        let ghost e = extent(n);
        let ghost tiles = self@.tiles;
        let ghost grid = self@.cells();
        let ghost row = tx * 256 + x;
        let ghost col = ty * 256 + y;
        proof {
            lemma_side_fits(n);
        }
        let prev_x = (tx + nt - 1) % nt;
        let prev_y = (ty + nt - 1) % nt;
        proof {
            assert(prev_x == tile_before(n, tx as int)) by {
                if tx == 0 {
                    lemma_small_mod((nt - 1) as nat, nt as nat);
                } else {
                    lemma_mod_add_multiples_vanish(tx - 1, n);
                    lemma_small_mod((tx - 1) as nat, nt as nat);
                }
            }
            assert(prev_y == tile_before(n, ty as int)) by {
                if ty == 0 {
                    lemma_small_mod((nt - 1) as nat, nt as nat);
                } else {
                    lemma_mod_add_multiples_vanish(ty - 1, n);
                    lemma_small_mod((ty - 1) as nat, nt as nat);
                }
            }
        }
        let mut patch = [0u8; 9];
        let mut a: usize = 0;
        while a < 3
            invariant
                a <= 3,
                n == nt,
                e == extent(n),
                tx < nt,
                ty < nt,
                x < 256,
                y < 256,
                shared || (x >= 1 && y >= 1),
                prev_x == tile_before(n, tx as int),
                prev_y == tile_before(n, ty as int),
                cur@.len() == n * n,
                count == cur@.len(),
                tiles == tiles_of(cur@),
                grid == flattened(tiles, n),
                coherent(tiles, n),
                row == tx * 256 + x,
                col == ty * 256 + y,
                forall|k: int|
                    0 <= k < a * 3 ==> #[trigger] patch[k] == torus_cell(
                        grid,
                        e,
                        row + k / 3 - 1,
                        col + k % 3 - 1,
                    ),
            decreases 3 - a,
        {
            let mut b: usize = 0;
            while b < 3
                invariant
                    a < 3,
                    b <= 3,
                    n == nt,
                    e == extent(n),
                    tx < nt,
                    ty < nt,
                    x < 256,
                    y < 256,
                    shared || (x >= 1 && y >= 1),
                    prev_x == tile_before(n, tx as int),
                    prev_y == tile_before(n, ty as int),
                    cur@.len() == n * n,
                    count == cur@.len(),
                    tiles == tiles_of(cur@),
                    grid == flattened(tiles, n),
                    coherent(tiles, n),
                    row == tx * 256 + x,
                    col == ty * 256 + y,
                    forall|k: int|
                        0 <= k < a * 3 + b ==> #[trigger] patch[k] == torus_cell(
                            grid,
                            e,
                            row + k / 3 - 1,
                            col + k % 3 - 1,
                        ),
                decreases 3 - b,
            {
                let above = shared && x + a == 0;
                let left = shared && y + b == 0;
                let from_x = if above {
                    prev_x
                } else {
                    tx
                };
                let from_y = if left {
                    prev_y
                } else {
                    ty
                };
                let near_x = if above {
                    TILE_STEP - 1
                } else {
                    x + a - 1
                };
                let near_y = if left {
                    TILE_STEP - 1
                } else {
                    y + b - 1
                };
                proof {
                    lemma_cell_coords(n, from_x as int, from_y as int);
                    lemma_pos(n, from_x as int, near_x as int);
                    lemma_pos(n, from_y as int, near_y as int);
                    lemma_pos_before(n, tx as int);
                    lemma_pos_before(n, ty as int);
                    assert(in_tiles(n, from_x as int, from_y as int, near_x as int, near_y as int));
                    assert(tile_cell(tiles, n, from_x as int, from_y as int, near_x as int,
                        near_y as int)
                        == torus_cell(grid, e, row + a - 1, col + b - 1));
                }
                let state = cur[from_x * nt + from_y][near_x * TILE_SIZE + near_y];
                let ghost filled = patch@;
                patch[a * 3 + b] = state;
                assert(patch@ == filled.update(a * 3 + b, state));
                b = b + 1;
            }
            a = a + 1;
        }
        proof {
            self.rule.lemma_table_fits();
            lemma_pos(n, tx as int, x as int);
            lemma_nine_cells();
        }
        patch_index(&patch, self.states, Ghost(grid), Ghost(e), Ghost(row), Ghost(col))
    }

    /// Writes the next states of the cells of the tile at `(tx, ty)` that no
    /// other tile shares into the other buffer.
    pub fn update_tile(&mut self, tx: usize, ty: usize)
        requires
            old(self).wf(),
            tx < old(self)@.n_tiles,
            ty < old(self)@.n_tiles,
        ensures
            final(self)@ == (TiledAutomatonView {
                prev_tiles: final(self)@.prev_tiles,
                ..old(self)@
            }),
            renewed(
                final(self)@.prev_tiles,
                old(self)@.prev_tiles,
                old(self)@.n_tiles as int,
                inner_of(tx as int, ty as int),
                old(self)@.next_value(),
            ),
    {
        let ghost start = self@;
        let ghost n = self.n_tiles as int;
        let ghost value = start.next_value();
        let ghost (ux, uy) = (tx as int, ty as int);
        proof {
            lemma_renewed_same(start.prev_tiles, n, inner_part(ux, uy, 1, 1), value);
        }
        let mut i: usize = 1;
        while i < TILE_STEP
            invariant
                1 <= i <= 256,
                n == start.n_tiles,
                ux == tx < n,
                uy == ty < n,
                start.wf(),
                value == start.next_value(),
                self@ == (TiledAutomatonView { prev_tiles: self@.prev_tiles, ..start }),
                renewed(self@.prev_tiles, start.prev_tiles, n, inner_part(ux, uy, i as int, 1),
                    value),
            decreases 256 - i,
        {
            let mut j: usize = 1;
            while j < TILE_STEP
                invariant
                    1 <= i < 256,
                    1 <= j <= 256,
                    n == start.n_tiles,
                    ux == tx < n,
                    uy == ty < n,
                    start.wf(),
                    value == start.next_value(),
                    self@ == (TiledAutomatonView { prev_tiles: self@.prev_tiles, ..start }),
                    renewed(
                        self@.prev_tiles,
                        start.prev_tiles,
                        n,
                        inner_part(ux, uy, i as int, j as int),
                        value,
                    ),
                decreases 256 - j,
            {
                let ghost mid = self@.prev_tiles;
                let ind = self.neighbourhood_of(tx, ty, i, j, false);
                let state = self.rule.get(ind);
                self.store(true, tx, ty, i, j, state);
                proof {
                    lemma_renewed_union(
                        start.prev_tiles,
                        mid,
                        self@.prev_tiles,
                        n,
                        inner_part(ux, uy, i as int, j as int),
                        one_cell(tx * 256 + i, ty * 256 + j),
                        inner_part(ux, uy, i as int, j + 1),
                        value,
                        always(state),
                    );
                }
                j = j + 1;
            }
            proof {
                lemma_renewed_again(
                    self@.prev_tiles,
                    start.prev_tiles,
                    n,
                    inner_part(ux, uy, i as int, 256),
                    inner_part(ux, uy, i + 1, 1),
                    value,
                );
            }
            i = i + 1;
        }
        proof {
            lemma_renewed_again(
                self@.prev_tiles,
                start.prev_tiles,
                n,
                inner_part(ux, uy, 256, 1),
                inner_of(ux, uy),
                value,
            );
        }
    }

    /// Writes the next states of the cells on the first column and the first
    /// row of the tile at `(tx, ty)` into the other buffer: in the tile itself
    /// and in the tiles before it, whose last column or row these cells also
    /// are. The corner goes into four tiles.
    pub fn update_tile_boundaries(&mut self, tx: usize, ty: usize)
        requires
            old(self).wf(),
            tx < old(self)@.n_tiles,
            ty < old(self)@.n_tiles,
        ensures
            final(self)@ == (TiledAutomatonView {
                prev_tiles: final(self)@.prev_tiles,
                ..old(self)@
            }),
            renewed(
                final(self)@.prev_tiles,
                old(self)@.prev_tiles,
                old(self)@.n_tiles as int,
                border_of(tx as int, ty as int),
                old(self)@.next_value(),
            ),
    {
        let ghost start = self@;
        let ghost n = self.n_tiles as int;
        let ghost value = start.next_value();
        let ghost (ux, uy) = (tx as int, ty as int);
        proof {
            lemma_renewed_same(start.prev_tiles, n, border_part(ux, uy, 1, 1, false), value);
        }
        let mut i: usize = 1;
        while i < TILE_STEP
            invariant
                1 <= i <= 256,
                n == start.n_tiles,
                ux == tx < n,
                uy == ty < n,
                start.wf(),
                value == start.next_value(),
                self@ == (TiledAutomatonView { prev_tiles: self@.prev_tiles, ..start }),
                renewed(
                    self@.prev_tiles,
                    start.prev_tiles,
                    n,
                    border_part(ux, uy, i as int, 1, false),
                    value,
                ),
            decreases 256 - i,
        {
            let ghost mid = self@.prev_tiles;
            let ind = self.neighbourhood_of(tx, ty, i, 0, true);
            let state = self.rule.get(ind);
            self.store(true, tx, ty, i, 0, state);
            proof {
                lemma_renewed_union(
                    start.prev_tiles,
                    mid,
                    self@.prev_tiles,
                    n,
                    border_part(ux, uy, i as int, 1, false),
                    one_cell(tx * 256 + i, ty * 256 + 0),
                    border_part(ux, uy, i + 1, 1, false),
                    value,
                    always(state),
                );
            }
            i = i + 1;
        }
        let mut j: usize = 1;
        while j < TILE_STEP
            invariant
                1 <= j <= 256,
                n == start.n_tiles,
                ux == tx < n,
                uy == ty < n,
                start.wf(),
                value == start.next_value(),
                self@ == (TiledAutomatonView { prev_tiles: self@.prev_tiles, ..start }),
                renewed(
                    self@.prev_tiles,
                    start.prev_tiles,
                    n,
                    border_part(ux, uy, 256, j as int, false),
                    value,
                ),
            decreases 256 - j,
        {
            let ghost mid = self@.prev_tiles;
            let ind = self.neighbourhood_of(tx, ty, 0, j, true);
            let state = self.rule.get(ind);
            self.store(true, tx, ty, 0, j, state);
            proof {
                lemma_renewed_union(
                    start.prev_tiles,
                    mid,
                    self@.prev_tiles,
                    n,
                    border_part(ux, uy, 256, j as int, false),
                    one_cell(tx * 256 + 0, ty * 256 + j),
                    border_part(ux, uy, 256, j + 1, false),
                    value,
                    always(state),
                );
            }
            j = j + 1;
        }
        let ghost mid = self@.prev_tiles;
        let ind = self.neighbourhood_of(tx, ty, 0, 0, true);
        let state = self.rule.get(ind);
        self.store(true, tx, ty, 0, 0, state);
        proof {
            lemma_renewed_union(
                start.prev_tiles,
                mid,
                self@.prev_tiles,
                n,
                border_part(ux, uy, 256, 256, false),
                one_cell(tx * 256 + 0, ty * 256 + 0),
                border_of(ux, uy),
                value,
                always(state),
            );
        }
    }

    /// One step of the automaton. First every tile gets the next states of
    /// the cells that it shares with no other tile, then every tile gets
    /// those of its first column and first row, which go into the tiles
    /// before it as well; then the two buffers exchange their roles. Both
    /// passes read the grid of before the step only.
    pub fn update(&mut self)
        requires
            old(self).wf(),
        ensures
            final(self).wf(),
            final(self)@ == (TiledAutomatonView {
                flop: !old(self)@.flop,
                tiles: final(self)@.tiles,
                prev_tiles: old(self)@.tiles,
                ..old(self)@
            }),
            final(self)@.cells() == old(self)@.next_cells(),
            final(self)@.flop != old(self)@.flop,
    {
        let ghost start = self@;
        let ghost n = self.n_tiles as int;
        let ghost value = start.next_value();
        let bounds_high = self.n_tiles;
        proof {
            lemma_renewed_same(start.prev_tiles, n, inner_before(0, 0), value);
        }
        let mut tx: usize = 0;
        while tx < bounds_high
            invariant
                tx <= bounds_high,
                bounds_high == n,
                n == start.n_tiles,
                start.wf(),
                value == start.next_value(),
                self@ == (TiledAutomatonView { prev_tiles: self@.prev_tiles, ..start }),
                renewed(self@.prev_tiles, start.prev_tiles, n, inner_before(tx as int, 0), value),
            decreases bounds_high - tx,
        {
            let mut ty: usize = 0;
            while ty < bounds_high
                invariant
                    tx < bounds_high,
                    ty <= bounds_high,
                    bounds_high == n,
                    n == start.n_tiles,
                    start.wf(),
                    value == start.next_value(),
                    self@ == (TiledAutomatonView { prev_tiles: self@.prev_tiles, ..start }),
                    renewed(
                        self@.prev_tiles,
                        start.prev_tiles,
                        n,
                        inner_before(tx as int, ty as int),
                        value,
                    ),
                decreases bounds_high - ty,
            {
                let ghost mid = self@;
                self.update_tile(tx, ty);
                proof {
                    lemma_renewed_union(
                        start.prev_tiles,
                        mid.prev_tiles,
                        self@.prev_tiles,
                        n,
                        inner_before(tx as int, ty as int),
                        inner_of(tx as int, ty as int),
                        inner_before(tx as int, ty + 1),
                        value,
                        mid.next_value(),
                    );
                }
                ty = ty + 1;
            }
            proof {
                lemma_renewed_again(
                    self@.prev_tiles,
                    start.prev_tiles,
                    n,
                    inner_before(tx as int, n),
                    inner_before(tx + 1, 0),
                    value,
                );
            }
            tx = tx + 1;
        }
        proof {
            lemma_renewed_again(
                self@.prev_tiles,
                start.prev_tiles,
                n,
                inner_before(n, 0),
                all_before(0, 0),
                value,
            );
        }
        let mut tx: usize = 0;
        while tx < bounds_high
            invariant
                tx <= bounds_high,
                bounds_high == n,
                n == start.n_tiles,
                start.wf(),
                value == start.next_value(),
                self@ == (TiledAutomatonView { prev_tiles: self@.prev_tiles, ..start }),
                renewed(self@.prev_tiles, start.prev_tiles, n, all_before(tx as int, 0), value),
            decreases bounds_high - tx,
        {
            let mut ty: usize = 0;
            while ty < bounds_high
                invariant
                    tx < bounds_high,
                    ty <= bounds_high,
                    bounds_high == n,
                    n == start.n_tiles,
                    start.wf(),
                    value == start.next_value(),
                    self@ == (TiledAutomatonView { prev_tiles: self@.prev_tiles, ..start }),
                    renewed(
                        self@.prev_tiles,
                        start.prev_tiles,
                        n,
                        all_before(tx as int, ty as int),
                        value,
                    ),
                decreases bounds_high - ty,
            {
                let ghost mid = self@;
                self.update_tile_boundaries(tx, ty);
                proof {
                    lemma_renewed_union(
                        start.prev_tiles,
                        mid.prev_tiles,
                        self@.prev_tiles,
                        n,
                        all_before(tx as int, ty as int),
                        border_of(tx as int, ty as int),
                        all_before(tx as int, ty + 1),
                        value,
                        mid.next_value(),
                    );
                }
                ty = ty + 1;
            }
            proof {
                lemma_renewed_again(
                    self@.prev_tiles,
                    start.prev_tiles,
                    n,
                    all_before(tx as int, n),
                    all_before(tx + 1, 0),
                    value,
                );
            }
            tx = tx + 1;
        }
        proof {
            let next = self@.prev_tiles;
            assert forall|ux: int, uy: int, x: int, y: int|
                in_tiles(n, ux, uy, x, y) implies #[trigger] tile_cell(
                next,
                n,
                ux,
                uy,
                x,
                y,
            ) == next_state(start.cells(), extent(n), start.rule, pos(n, ux, x), pos(n, uy, y)) by {
                lemma_pos(n, ux, x);
                lemma_pos(n, uy, y);
            }
            lemma_next_tiles(start.tiles, next, n, start.rule);
            lemma_step_is_grid(start.cells(), extent(n), start.rule);
        }
        self.flop = !self.flop;
    }

    /// Makes an automaton for a grid of side `size`, with every cell in
    /// state 0. The tiles are as many as fit into `size`; where `size` is not
    /// a multiple of `TILE_STEP`, the grid that they cover is smaller.
    pub fn new(states: u8, size: usize, rule: Rule) -> (a: TiledAutomaton)
        requires
            rule.wf(),
            rule@.horizon == 1,
            states == rule@.states,
            states >= 1,
            size * size <= usize::MAX,
        ensures
            a.wf(),
            a@.size == size,
            a@.n_tiles == size / 256,
            a@.states == states,
            a@.flop,
            a@.rule == rule@,
            a@.prev_tiles == a@.tiles,
            forall|i: int| 0 <= i < a@.cells().len() ==> #[trigger] a@.cells()[i] == 0,
    {
        let s = size / (TILE_SIZE - 1);
        let ghost n = s as int;
        assert(s * s <= size * size && extent(n) * extent(n) <= size * size) by (nonlinear_arith)
            requires
                0 <= s * 256 <= size,
                extent(n) == s * 256,
        ;
        let grid1 = blank_tiles(s * s);
        let grid2 = blank_tiles(s * s);
        let a = TiledAutomaton { states, n_tiles: s, size, flop: true, rule, grid1, grid2 };
        proof {
            let tiles = a@.tiles;
            assert forall|t: int| 0 <= t < tiles.len() implies #[trigger] a@.prev_tiles[t]
                =~= tiles[t] by {
                assert forall|k: int|
                    0 <= k < TILE_AREA implies a@.prev_tiles[t][k] == tiles[t][k] by {
                    assert(tiles_of(a.grid1@)[t][k] == 0);
                    assert(tiles_of(a.grid2@)[t][k] == 0);
                }
            }
            assert(a@.prev_tiles =~= tiles);
            assert forall|tx: int, ty: int, x: int, y: int|
                in_tiles(n, tx, ty, x, y) implies #[trigger] tile_cell(
                tiles,
                n,
                tx,
                ty,
                x,
                y,
            ) == 0 by {
                lemma_cell_coords(n, tx, ty);
                let t = cell(n, tx, ty);
                let k = cell(257, x, y);
                assert(0 <= t < a.grid1@.len());
                assert(0 <= k < TILE_AREA);
                assert(tiles_of(a.grid1@)[t][k] == 0);
            }
            let grid = flattened(tiles, n);
            assert forall|k: int| 0 <= k < grid.len() implies #[trigger] grid[k] == 0 by {
                lemma_cell_split(extent(n), k);
                assert(in_tiles(
                    n,
                    (k / extent(n)) / 256,
                    (k % extent(n)) / 256,
                    (k / extent(n)) % 256,
                    (k % extent(n)) % 256,
                ));
            }
            assert forall|tx: int, ty: int, x: int, y: int|
                in_tiles(n, tx, ty, x, y) implies #[trigger] tile_cell(
                tiles,
                n,
                tx,
                ty,
                x,
                y,
            ) == grid[cell(extent(n), pos(n, tx, x), pos(n, ty, y))] by {
                lemma_pos(n, tx, x);
                lemma_pos(n, ty, y);
                lemma_cell_coords(extent(n), pos(n, tx, x), pos(n, ty, y));
            }
        }
        a
    }

    /// Puts the cell at `(row, col)` of the grid in state `state`, in every
    /// tile that holds a copy of it.
    pub fn set_cell(&mut self, row: usize, col: usize, state: u8)
        requires
            old(self).wf(),
            row < old(self)@.extent(),
            col < old(self)@.extent(),
            state < old(self)@.states,
        ensures
            final(self).wf(),
            final(self)@ == (TiledAutomatonView { tiles: final(self)@.tiles, ..old(self)@ }),
            final(self)@.cells() == old(self)@.cells().update(
                cell(old(self)@.extent(), row as int, col as int),
                state,
            ),
    {
        let ghost before = self@.tiles;
        let ghost n = self.n_tiles as int;
        let ghost grid = self@.cells();
        self.store(false, row / TILE_STEP, col / TILE_STEP, row % TILE_STEP, col % TILE_STEP, state);
        proof {
            lemma_store_coherent(before, self@.tiles, n, row as int, col as int, state);
            let k = cell(extent(n), row as int, col as int);
            assert forall|i: int| 0 <= i < grid.len() implies #[trigger] grid.update(k, state)[i]
                < self.states by {
                assert(grid[i] < self.states);
            }
        }
    }

    /// Draws every cell of the grid anew, uniformly among the states. Each
    /// cell is drawn once and written in all its copies: the result is a grid
    /// whose copies agree, whatever is drawn.
    pub fn random_init(&mut self)
        requires
            old(self).wf(),
        ensures
            final(self).wf(),
            final(self)@ == (TiledAutomatonView { tiles: final(self)@.tiles, ..old(self)@ }),
    {
        let states = self.states;
        let ghost start = self@;
        let ghost e = self@.extent();
        proof {
            lemma_side_fits(e);
        }
        let side = self.n_tiles * TILE_STEP;
        let mut rng = rand::thread_rng();
        let mut row: usize = 0;
        while row < side
            invariant
                side == e,
                e == start.extent(),
                states == start.states,
                self.wf(),
                self@ == (TiledAutomatonView { tiles: self@.tiles, ..start }),
            decreases side - row,
        {
            let mut col: usize = 0;
            while col < side
                invariant
                    row < side,
                    side == e,
                    e == start.extent(),
                    states == start.states,
                    self.wf(),
                    self@ == (TiledAutomatonView { tiles: self@.tiles, ..start }),
                decreases side - col,
            {
                proof {
                    lemma_cell_coords(e, row as int, col as int);
                    assert(self@.cells()[cell(e, row as int, col as int)] < states);
                }
                let state = random_state(&mut rng, states);
                self.set_cell(row, col, state);
                col = col + 1;
            }
            row = row + 1;
        }
    }

    /// Lays a pattern on the grid: the background everywhere, and the
    /// pattern in the middle, cut off where it reaches over an edge. Every
    /// cell is written in all its copies. A pattern that does not suit the
    /// states of the grid is refused and the grid is left as it is.
    pub fn init_from_pattern(&mut self, pattern: &PatternSpec) -> (res: Result<(), PatternError>)
        requires
            old(self).wf(),
        ensures
            final(self).wf(),
            match res {
                Ok(_) => pattern@.suits(old(self)@.states) && final(self)@ == (TiledAutomatonView {
                    tiles: final(self)@.tiles,
                    ..old(self)@
                }) && forall|row: int, col: int|
                    0 <= row < old(self)@.extent() && 0 <= col < old(self)@.extent()
                        ==> final(self)@.cells()[#[trigger] cell(old(self)@.extent(), row, col)]
                        == pattern@.laid_out(old(self)@.extent(), row, col),
                Err(PatternError::PatternFormatError) => !pattern@.suits(old(self)@.states)
                    && final(self)@ == old(self)@,
                Err(PatternError::PatternFileError(_)) => false,
            },
    {
        if !pattern.suits(self.states) {
            return Err(PatternError::PatternFormatError);
        }
        let width = pattern.width();
        let ghost states = self.states;
        let ghost start = self@;
        let ghost e = self@.extent();
        proof {
            lemma_side_fits(e);
        }
        let side = self.n_tiles * TILE_STEP;
        let mut row: usize = 0;
        while row < side
            invariant
                row <= side,
                side == e,
                e == start.extent(),
                states == start.states,
                width == pattern@.width(),
                pattern@.suits(states),
                2 * e + 512 <= usize::MAX,
                self.wf(),
                self@ == (TiledAutomatonView { tiles: self@.tiles, ..start }),
                forall|r: int, c: int|
                    0 <= r < row && 0 <= c < e ==> self@.cells()[#[trigger] cell(e, r, c)]
                        == pattern@.laid_out(e, r, c),
            decreases side - row,
        {
            let mut col: usize = 0;
            while col < side
                invariant
                    row < side,
                    col <= side,
                    side == e,
                    e == start.extent(),
                    states == start.states,
                    width == pattern@.width(),
                    pattern@.suits(states),
                    2 * e + 512 <= usize::MAX,
                    self.wf(),
                    self@ == (TiledAutomatonView { tiles: self@.tiles, ..start }),
                    forall|r: int, c: int|
                        0 <= r < e && 0 <= c < e && (r < row || (r == row && c < col))
                            ==> self@.cells()[#[trigger] cell(e, r, c)] == pattern@.laid_out(
                            e,
                            r,
                            c,
                        ),
                decreases side - col,
            {
                let state = pattern.state_at(side, width, row, col);
                self.set_cell(row, col, state);
                proof {
                    assert forall|r: int, c: int|
                        0 <= r < e && 0 <= c < e && (r < row || (r == row && c < col + 1)) implies
                        self@.cells()[#[trigger] cell(e, r, c)] == pattern@.laid_out(e, r, c) by {
                        lemma_cell_coords(e, r, c);
                        lemma_cell_coords(e, row as int, col as int);
                    }
                }
                col = col + 1;
            }
            row = row + 1;
        }
        Ok(())
    }

    /// Whether the automaton is well formed.
    pub fn is_well_formed(&self) -> (ok: bool)
        ensures
            ok == self.wf(),
    {
        if !self.rule.is_well_formed() || self.rule.horizon() != 1 || self.states
            != self.rule.states() || self.n_tiles != self.size / TILE_STEP {
            return false;
        }
        let nt = self.n_tiles;
        let states = self.states;
        let cur = if self.flop {
            &self.grid1
        } else {
            &self.grid2
        };
        let other = if self.flop {
            &self.grid2
        } else {
            &self.grid1
        };
        let count = cur.len();
        let other_count = other.len();
        let fits = match nt.checked_mul(TILE_STEP) {
            Some(side) => side.checked_mul(side).is_some(),
            None => false,
        };
        let tiles_ok = match nt.checked_mul(nt) {
            Some(n) => count == n && other_count == n,
            None => false,
        };
        if !fits || !tiles_ok {
            return false;
        }
        let ghost n = nt as int;
        let ghost tiles = self@.tiles;
        assert(is_tiling(tiles, n) && is_tiling(self@.prev_tiles, n));
        let mut tx: usize = 0;
        while tx < nt
            invariant
                tx <= nt,
                n == nt,
                count == n * n,
                cur@.len() == count,
                tiles == tiles_of(cur@),
                tiles == self@.tiles,
                n == self@.n_tiles,
                tiles.len() == n * n,
                states == self@.states,
                forall|ux: int, uy: int|
                    0 <= ux < tx && 0 <= uy < n ==> #[trigger] seams_agree(tiles, n, ux, uy),
                forall|ux: int, uy: int, x: int, y: int|
                    in_tiles(n, ux, uy, x, y) && ux < tx
                        ==> #[trigger] tile_cell(tiles, n, ux, uy, x, y)
                        < states,
            decreases nt - tx,
        {
            let mut ty: usize = 0;
            while ty < nt
                invariant
                    tx < nt,
                    ty <= nt,
                    n == nt,
                    count == n * n,
                    cur@.len() == count,
                    tiles == tiles_of(cur@),
                    tiles == self@.tiles,
                    n == self@.n_tiles,
                    tiles.len() == n * n,
                    states == self@.states,
                    forall|ux: int, uy: int|
                        0 <= ux < n && 0 <= uy < n && (ux < tx || (ux == tx && uy < ty))
                            ==> #[trigger] seams_agree(
                            tiles,
                            n,
                            ux,
                            uy,
                        ),
                    forall|ux: int, uy: int, x: int, y: int|
                        in_tiles(n, ux, uy, x, y) && (ux < tx || (ux == tx && uy < ty))
                            ==> #[trigger] tile_cell(
                            tiles,
                            n,
                            ux,
                            uy,
                            x,
                            y,
                        ) < states,
                decreases nt - ty,
            {
                let below = if tx + 1 == nt {
                    0
                } else {
                    tx + 1
                };
                let right = if ty + 1 == nt {
                    0
                } else {
                    ty + 1
                };
                proof {
                    lemma_cell_coords(n, tx as int, ty as int);
                    lemma_cell_coords(n, below as int, ty as int);
                    lemma_cell_coords(n, tx as int, right as int);
                }
                let here = &cur[tx * nt + ty];
                let under = &cur[below * nt + ty];
                let beside = &cur[tx * nt + right];
                let mut x: usize = 0;
                while x < TILE_SIZE
                    invariant
                        x <= 257,
                        tx < nt,
                        ty < nt,
                        n == nt,
                        tiles == self@.tiles,
                        n == self@.n_tiles,
                        tiles.len() == n * n,
                        states == self@.states,
                        here@ == tiles[cell(n, tx as int, ty as int)],
                        forall|a: int, b: int|
                            0 <= a < x && 0 <= b <= 256 ==> #[trigger] tile_cell(
                                tiles,
                                n,
                                tx as int,
                                ty as int,
                                a,
                                b,
                            ) < states,
                    decreases 257 - x,
                {
                    let mut y: usize = 0;
                    while y < TILE_SIZE
                        invariant
                            x < 257,
                            y <= 257,
                            tx < nt,
                            ty < nt,
                            n == nt,
                            tiles == self@.tiles,
                            n == self@.n_tiles,
                            tiles.len() == n * n,
                            states == self@.states,
                            here@ == tiles[cell(n, tx as int, ty as int)],
                            forall|a: int, b: int|
                                0 <= a <= 256 && 0 <= b <= 256 && (a < x || (a == x && b < y))
                                    ==> #[trigger] tile_cell(
                                    tiles,
                                    n,
                                    tx as int,
                                    ty as int,
                                    a,
                                    b,
                                ) < states,
                        decreases 257 - y,
                    {
                        if here[x * TILE_SIZE + y] >= states {
                            proof {
                                let bad = tile_cell(tiles, n, tx as int, ty as int, x as int,
                                    y as int);
                                assert(bad >= states);
                                if self.wf() {
                                    lemma_pos(n, tx as int, x as int);
                                    lemma_pos(n, ty as int, y as int);
                                    lemma_cell_coords(
                                        extent(n),
                                        pos(n, tx as int, x as int),
                                        pos(n, ty as int, y as int),
                                    );
                                    assert(in_tiles(n, tx as int, ty as int, x as int, y as int));
                                }
                            }
                            return false;
                        }
                        y = y + 1;
                    }
                    x = x + 1;
                }
                let mut k: usize = 0;
                while k < TILE_SIZE
                    invariant
                        k <= 257,
                        tx < nt,
                        ty < nt,
                        n == nt,
                        tiles == self@.tiles,
                        n == self@.n_tiles,
                        tiles.len() == n * n,
                        below == tile_after(n, tx as int),
                        right == tile_after(n, ty as int),
                        here@ == tiles[cell(n, tx as int, ty as int)],
                        under@ == tiles[cell(n, below as int, ty as int)],
                        beside@ == tiles[cell(n, tx as int, right as int)],
                        forall|j: int|
                            0 <= j < k
                                ==> #[trigger] tile_cell(tiles, n, tx as int, ty as int, 256, j)
                                == tile_cell(tiles, n, below as int, ty as int, 0, j),
                        forall|j: int|
                            0 <= j < k
                                ==> #[trigger] tile_cell(tiles, n, tx as int, ty as int, j, 256)
                                == tile_cell(tiles, n, tx as int, right as int, j, 0),
                    decreases 257 - k,
                {
                    if here[TILE_STEP * TILE_SIZE + k] != under[k]
                        || here[k * TILE_SIZE + TILE_STEP]
                        != beside[k * TILE_SIZE] {
                        proof {
                            assert(tile_cell(tiles, n, tx as int, ty as int, 256, k as int)
                                != tile_cell(tiles, n, below as int, ty as int, 0, k as int)
                                || tile_cell(tiles, n, tx as int, ty as int, k as int, 256)
                                != tile_cell(tiles, n, tx as int, right as int, k as int, 0));
                            if self.wf() {
                                lemma_coherent_has_seams(tiles, n, tx as int, ty as int);
                            }
                        }
                        return false;
                    }
                    k = k + 1;
                }
                assert(seams_agree(tiles, n, tx as int, ty as int));
                ty = ty + 1;
            }
            tx = tx + 1;
        }
        proof {
            lemma_seams_make_coherent(tiles, n);
            let grid = flattened(tiles, n);
            assert forall|i: int| 0 <= i < grid.len() implies #[trigger] grid[i] < states by {
                lemma_cell_split(extent(n), i);
                let r = i / extent(n);
                let c = i % extent(n);
                assert(in_tiles(n, r / 256, c / 256, r % 256, c % 256));
            }
        }
        true
    }

    /// The grid, row by row.
    pub fn cells(&self) -> (grid: Vec<u8>)
        requires
            self.wf(),
        ensures
            grid@ == self@.cells(),
    {
        let side = self.n_tiles * TILE_STEP;
        let cur = if self.flop {
            &self.grid1
        } else {
            &self.grid2
        };
        let grid = duplicate_array_tiled(cur, side, 1);
        proof {
            let n = self.n_tiles as int;
            assert forall|k: int| 0 <= k < grid@.len() implies grid@[k] == self@.cells()[k] by {
                lemma_cell_split(extent(n), k);
            }
            assert(grid@ =~= self@.cells());
        }
        grid
    }

    /// The snapshots of the automaton: `steps` of them, with `skip` updates
    /// after each.
    pub fn skipped_iter(&mut self, steps: u32, skip: u32) -> (it: TiledAutomatonIterator<'_>)
        ensures
            it.autom@ == old(self)@,
            *final(it.autom) == *final(self),
            it.skip == skip,
            it.steps == Some(steps),
            it.ct == 0,
    {
        TiledAutomatonIterator { autom: self, skip, steps: Some(steps), ct: 0 }
    }
}

/// The grid that a buffer of tiles holds, row by row, with every cell
/// repeated `scale` times along both axes. `size` is the side of the grid, a
/// multiple of `TILE_STEP`.
pub fn duplicate_array_tiled(s: &Vec<[u8; TILE_AREA]>, size: usize, scale: u16) -> (out: Vec<u8>)
    requires
        size % 256 == 0,
        s@.len() == (size / 256) * (size / 256),
        (size * scale) * (size * scale) <= usize::MAX,
    ensures
        out@.len() == (size * scale) * (size * scale),
        forall|a: int, b: int|
            0 <= a < size * scale && 0 <= b < size * scale ==> out@[#[trigger] cell(
                size * scale,
                a,
                b,
            )] == flattened(tiles_of(s@), size as int / 256)[cell(
                size as int,
                a / (scale as int),
                b / (scale as int),
            )],
{
    let factor = scale as usize;
    let ghost big = size * scale;
    let ghost n = size as int / 256;
    let ghost tiles = tiles_of(s@);
    proof {
        lemma_side_fits(big);
        assert(size * scale >= 0) by (nonlinear_arith)
            requires
                size >= 0,
                scale >= 0,
        ;
    }
    let scaled_size = size * factor;
    let n_tiles = size / TILE_STEP;
    let ghost count = s.len();
    let mut out: Vec<u8> = Vec::new();
    let mut a: usize = 0;
    while a < scaled_size
        invariant
            a <= scaled_size,
            scaled_size == big,
            big == size * scale,
            factor == scale,
            n == n_tiles,
            n == size as int / 256,
            size == n * 256,
            big * big <= usize::MAX,
            count == n * n,
            s@.len() == count,
            tiles == tiles_of(s@),
            out@.len() == cell(big, a as int, 0),
            forall|i: int, j: int|
                0 <= i < a && 0 <= j < big ==> out@[#[trigger] cell(big, i, j)] == flattened(
                    tiles,
                    n,
                )[cell(size as int, i / (scale as int), j / (scale as int))],
        decreases scaled_size - a,
    {
        let mut b: usize = 0;
        while b < scaled_size
            invariant
                a < scaled_size,
                b <= scaled_size,
                scaled_size == big,
                big == size * scale,
                factor == scale,
                n == n_tiles,
                n == size as int / 256,
                size == n * 256,
                big * big <= usize::MAX,
                count == n * n,
                s@.len() == count,
                tiles == tiles_of(s@),
                out@.len() == cell(big, a as int, b as int),
                forall|i: int, j: int|
                    0 <= i < big && 0 <= j < big && (i < a || (i == a && j < b))
                        ==> out@[#[trigger] cell(
                        big,
                        i,
                        j,
                    )] == flattened(tiles, n)[cell(
                        size as int,
                        i / (scale as int),
                        j / (scale as int),
                    )],
            decreases scaled_size - b,
        {
            proof {
                lemma_scaled_coord(a as int, size as int, factor as int);
                lemma_scaled_coord(b as int, size as int, factor as int);
            }
            let idx_i = a / factor;
            let idx_j = b / factor;
            let tx = idx_i / TILE_STEP;
            let ty = idx_j / TILE_STEP;
            let idx_x = idx_i % TILE_STEP;
            let idx_y = idx_j % TILE_STEP;
            proof {
                lemma_cell_coords(n, tx as int, ty as int);
                lemma_flattened(tiles, n, idx_i as int, idx_j as int);
                lemma_cell_coords(big, a as int, b as int);
            }
            let item = s[tx * n_tiles + ty][idx_x * TILE_SIZE + idx_y];
            let ghost before = out@;
            out.push(item);
            proof {
                assert forall|i: int, j: int|
                    0 <= i < big && 0 <= j < big && (i < a || (i == a && j < b + 1))
                        implies out@[#[trigger] cell(
                    big,
                    i,
                    j,
                )] == flattened(tiles, n)[cell(
                    size as int,
                    i / (scale as int),
                    j / (scale as int),
                )] by {
                    lemma_cell_coords(big, i, j);
                    if i < a || j < b {
                        assert(out@[cell(big, i, j)] == before[cell(big, i, j)]) by {
                            if i < a {
                                assert(cell(big, i, j) < cell(big, a as int,
                                    0)) by (nonlinear_arith)
                                    requires
                                        0 <= i < a,
                                        0 <= j < big,
                                        cell(big, i, j) == i * big + j,
                                        cell(big, a as int, 0) == a * big + 0,
                                ;
                            }
                        }
                    }
                }
            }
            b = b + 1;
        }
        assert(cell(big, a as int, big) == cell(big, a as int + 1, 0)) by (nonlinear_arith)
            requires
                cell(big, a as int, big) == a * big + big,
                cell(big, a as int + 1, 0) == (a + 1) * big + 0,
        ;
        a = a + 1;
    }
    out
}

/// The snapshots of a tiled automaton, one for each call of `next`. After a
/// snapshot is taken the automaton is updated `skip` times. With `steps` set,
/// that many snapshots are handed out and then no more; without, there is no
/// end. `ct` counts the snapshots handed out where `steps` is set.
pub struct TiledAutomatonIterator<'a> {
    pub autom: &'a mut TiledAutomaton,
    pub skip: u32,
    pub steps: Option<u32>,
    pub ct: u32,
}

impl<'a> TiledAutomatonIterator<'a> {
    /// All the snapshots asked for have been handed out.
    pub open spec fn is_exhausted(&self) -> bool {
        self.steps matches Some(v) && self.ct >= v
    }

    /// The grid as it stands, row by row, and then `skip` updates; `None`
    /// once all the snapshots asked for have been handed out.
    pub fn next(&mut self) -> (snapshot: Option<Vec<u8>>)
        requires
            old(self).autom.wf(),
        ensures
            *final(final(self).autom) == *final(old(self).autom),
            final(self).skip == old(self).skip,
            final(self).steps == old(self).steps,
            final(self).autom.wf(),
            final(self).autom@.size == old(self).autom@.size,
            final(self).autom@.n_tiles == old(self).autom@.n_tiles,
            final(self).autom@.states == old(self).autom@.states,
            final(self).autom@.rule == old(self).autom@.rule,
            match snapshot {
                None => old(self).is_exhausted() && final(self).autom@ == old(self).autom@
                    && final(self).ct == old(self).ct,
                Some(grid) => !old(self).is_exhausted() && grid@ == old(self).autom@.cells()
                    && final(self).autom@.cells() == old(self).autom@.cells_after(
                    old(self).skip as nat,
                ) && final(self).autom@.flop == (if old(self).skip % 2 == 0 {
                    old(self).autom@.flop
                } else {
                    !old(self).autom@.flop
                }) && final(self).ct == if old(self).steps is Some {
                    old(self).ct + 1
                } else {
                    old(self).ct as int
                },
            },
    {
        match self.steps {
            Some(v) => {
                if self.ct >= v {
                    return None;
                }
                self.ct = self.ct + 1;
            },
            None => {},
        }
        let ret = self.autom.cells();
        let ghost start = self.autom@;
        let mut done: u32 = 0;
        while done < self.skip
            invariant
                done <= self.skip,
                self.autom.wf(),
                self.autom@.size == start.size,
                self.autom@.n_tiles == start.n_tiles,
                self.autom@.states == start.states,
                self.autom@.rule == start.rule,
                self.autom@.cells() == start.cells_after(done as nat),
                self.autom@.flop == (if done % 2 == 0 {
                    start.flop
                } else {
                    !start.flop
                }),
                *final(self.autom) == *final(old(self).autom),
                self.skip == old(self).skip,
                self.steps == old(self).steps,
                self.ct == if old(self).steps is Some {
                    old(self).ct + 1
                } else {
                    old(self).ct as int
                },
            decreases self.skip - done,
        {
            self.autom.update();
            done = done + 1;
        }
        Some(ret)
    }
}

} // verus!
