//! The flat engine: the grid as one buffer in row-major order, with a second
//! buffer of the same size that the next grid is written into.
use crate::automaton::pattern::{PatternError, PatternSpec};
use crate::digits::{lemma_pow_monotone, lemma_pow_step};
use crate::lattice::{
    is_grid, lemma_neighbourhood_bound, lemma_side_fits, lemma_step_is_grid, lemma_torus_cell,
    neighbourhood, neighbourhood_index, next_state, step, steps, torus_cell, wrap,
};
use crate::rule::{side_of, Rule, RuleView};
use crate::sampling::random_state;
use crate::symmetry::{cell, cell_count, lemma_cell_coords};
use vstd::arithmetic::div_mod::*;
use vstd::arithmetic::power::*;
use vstd::prelude::*;

verus! {

/// A flat automaton as a mathematical value.
pub struct AutomatonView {
    /// The side of the grid.
    pub size: usize,
    /// The number of states of a cell.
    pub states: u8,
    /// Which of the two buffers holds the grid.
    pub flop: bool,
    /// The grid, row by row.
    pub grid: Seq<u8>,
    /// The other buffer.
    pub prev_grid: Seq<u8>,
    /// The rule.
    pub rule: RuleView,
}

impl AutomatonView {
    /// The rule is well formed and is a rule for the states of the grid, the
    /// grid is a grid of these states, and the other buffer has its size.
    pub open spec fn wf(self) -> bool {
        &&& self.rule.wf()
        &&& self.states == self.rule.states
        &&& is_grid(self.grid, self.size as int, self.states as int)
        &&& self.prev_grid.len() == self.grid.len()
    }

    /// The grid after one step of the rule.
    pub open spec fn next_grid(self) -> Seq<u8> {
        step(self.grid, self.size as int, self.rule)
    }

    /// The automaton after one update: the next grid in what was the other
    /// buffer, and the grid of before in the buffer that is now the other.
    pub open spec fn updated(self) -> AutomatonView {
        AutomatonView { flop: !self.flop, grid: self.next_grid(), prev_grid: self.grid, ..self }
    }

    /// The automaton after `count` updates.
    pub open spec fn after(self, count: nat) -> AutomatonView
        decreases count,
    {
        if count == 0 {
            self
        } else {
            self.after((count - 1) as nat).updated()
        }
    }

    /// The cell at `(row, col)` has its whole neighbourhood inside the grid,
    /// so that no coordinate of a neighbour wraps around.
    pub open spec fn is_interior(self, row: int, col: int) -> bool {
        let h = self.rule.horizon as int;
        let n = self.size as int;
        h <= row && row + h < n && h <= col && col + h < n
    }
}

/// The flat engine. Of its two buffers one holds the grid; an update writes
/// the next grid into the other and then exchanges their roles.
pub struct Automaton {
    size: usize,
    states: u8,
    flop: bool,
    grid1: Vec<u8>,
    grid2: Vec<u8>,
    rule: Rule,
}

impl View for Automaton {
    type V = AutomatonView;

    closed spec fn view(&self) -> AutomatonView {
        AutomatonView {
            size: self.size,
            states: self.states,
            flop: self.flop,
            grid: if self.flop {
                self.grid1@
            } else {
                self.grid2@
            },
            prev_grid: if self.flop {
                self.grid2@
            } else {
                self.grid1@
            },
            rule: self.rule@,
        }
    }
}

impl vstd::std_specs::core::IndexSpecImpl<usize> for Automaton {
    open spec fn index_req(&self, index: &usize) -> bool {
        *index < self@.grid.len()
    }
}

impl std::ops::Index<usize> for Automaton {
    type Output = u8;

    /// The state of the cell at place `idx` of the grid, row by row.
    fn index(&self, idx: usize) -> (state: &u8)
        ensures
            *state == self@.grid[idx as int],
    {
        if self.flop {
            &self.grid1[idx]
        } else {
            &self.grid2[idx]
        }
    }
}

/// Updates keep an automaton well formed, change nothing but the buffers and
/// which of them holds the grid, and take the grid through the steps of the
/// rule.
pub proof fn lemma_after(a: AutomatonView, count: nat)
    requires
        a.wf(),
    ensures
        a.after(count).wf(),
        a.after(count).size == a.size,
        a.after(count).states == a.states,
        a.after(count).rule == a.rule,
        a.after(count).grid == steps(a.grid, a.size as int, a.rule, count),
        a.after(count).flop == (if count % 2 == 0 {
            a.flop
        } else {
            !a.flop
        }),
    decreases count,
{
    if count > 0 {
        lemma_after(a, (count - 1) as nat);
        let before = a.after((count - 1) as nat);
        lemma_step_is_grid(before.grid, before.size as int, before.rule);
    }
}

/// Going `h` back from `x` on a torus of side `n` is going `n - h % n` on.
proof fn lemma_wrap_shift(x: int, h: int, n: int)
    requires
        n >= 1,
    ensures
        0 < n - h % n <= n,
        0 <= x % n < n,
        wrap((x % n) + (n - h % n), n) == wrap(x - h, n),
{
    lemma_mod_bound(h, n);
    lemma_mod_bound(x, n);
    lemma_sub_mod_noop(x, h, n);
    lemma_mod_add_multiples_vanish((x % n) - (h % n), n);
}

impl Automaton {
    /// The automaton is well formed.
    pub open spec fn wf(&self) -> bool {
        self@.wf()
    }

    /// Makes an automaton whose grid is `grid`, a square of side `size` in
    /// row-major order.
    pub fn new(states: u8, size: usize, grid: Vec<u8>, rule: Rule) -> (a: Automaton)
        requires
            rule.wf(),
            states == rule@.states,
            is_grid(grid@, size as int, states as int),
        ensures
            a.wf(),
            a@ == (AutomatonView {
                size,
                states,
                flop: true,
                grid: grid@,
                prev_grid: grid@,
                rule: rule@,
            }),
    {
        let other = grid.clone();
        assert(other@ =~= grid@);
        Automaton { states, size, flop: true, rule, grid1: grid, grid2: other }
    }

    /// Both buffers fit in memory.
    proof fn lemma_buffers_fit(&self)
        ensures
            self@.grid.len() <= usize::MAX,
            self@.prev_grid.len() <= usize::MAX,
    {
        assert(self.grid1.len() == self.grid1@.len());
        assert(self.grid2.len() == self.grid2@.len());
    }

    /// The side of the grid.
    pub fn size(&self) -> (n: usize)
        ensures
            n == self@.size,
    {
        self.size
    }

    /// The number of states of a cell.
    pub fn states(&self) -> (s: u8)
        ensures
            s == self@.states,
    {
        self.states
    }

    /// Which of the two buffers holds the grid. Every update changes it.
    pub fn flop(&self) -> (f: bool)
        ensures
            f == self@.flop,
    {
        self.flop
    }

    /// The rule.
    pub fn rule(&self) -> (r: &Rule)
        ensures
            r@ == self@.rule,
    {
        &self.rule
    }

    /// The grid, for reading.
    pub fn cells(&self) -> (g: &Vec<u8>)
        ensures
            g@ == self@.grid,
    {
        if self.flop {
            &self.grid1
        } else {
            &self.grid2
        }
    }

    /// The buffer that holds the grid, for writing. Nothing keeps it a grid:
    /// `is_well_formed` tells afterwards.
    pub fn grid(&mut self) -> (g: &mut Vec<u8>)
        ensures
            g@ == old(self)@.grid,
            final(self)@ == (AutomatonView { grid: final(g)@, ..old(self)@ }),
    {
        if self.flop {
            &mut self.grid1
        } else {
            &mut self.grid2
        }
    }

    /// The buffer that holds the grid, for writing; the same as `grid`.
    pub fn grid_mut(&mut self) -> (g: &mut Vec<u8>)
        ensures
            g@ == old(self)@.grid,
            final(self)@ == (AutomatonView { grid: final(g)@, ..old(self)@ }),
    {
        if self.flop {
            &mut self.grid1
        } else {
            &mut self.grid2
        }
    }

    /// The buffer that does not hold the grid, for writing. The next update
    /// overwrites all of it.
    pub fn prev_grid(&mut self) -> (g: &mut Vec<u8>)
        ensures
            g@ == old(self)@.prev_grid,
            final(self)@ == (AutomatonView { prev_grid: final(g)@, ..old(self)@ }),
    {
        if self.flop {
            &mut self.grid2
        } else {
            &mut self.grid1
        }
    }

    /// Whether the automaton is well formed.
    pub fn is_well_formed(&self) -> (ok: bool)
        ensures
            ok == self.wf(),
    {
        if !self.rule.is_well_formed() || self.states != self.rule.states() {
            return false;
        }
        let grid = if self.flop {
            &self.grid1
        } else {
            &self.grid2
        };
        let other = if self.flop {
            &self.grid2
        } else {
            &self.grid1
        };
        let len = grid.len();
        let area = match self.size.checked_mul(self.size) {
            Some(area) => area,
            None => {
                return false;
            },
        };
        if len != area || other.len() != area {
            return false;
        }
        let mut i: usize = 0;
        while i < grid.len()
            invariant
                i <= grid.len(),
                grid@ == self@.grid,
                forall|k: int| 0 <= k < i ==> #[trigger] grid[k] < self.states,
            decreases grid.len() - i,
        {
            if grid[i] >= self.states {
                assert(self@.grid[i as int] >= self.states);
                return false;
            }
            i = i + 1;
        }
        true
    }
    /// The neighbourhood number of the cell at `(row, col)`. Where the caller
    /// vouches for an interior cell (`wrapped` is false) the neighbours are
    /// read where they stand; otherwise every coordinate is wrapped.
    fn neighbourhood_of(&self, row: usize, col: usize, wrapped: bool) -> (ind: usize)
        requires
            self.wf(),
            row < self@.size,
            col < self@.size,
            wrapped || self@.is_interior(row as int, col as int),
        ensures
            ind == neighbourhood_index(
                self@.grid,
                self@.size as int,
                self@.states as int,
                self@.rule.horizon as int,
                row as int,
                col as int,
            ),
            ind < self@.rule.table.len(),
    {
        let size = self.size;
        let states = self.states as usize;
        let h = self.rule.horizon() as usize;
        let side = 2 * h + 1;
        let grid = self.cells();
        let ghost area = grid.len();
        let ghost table_len = self.rule@.table.len();
        let ghost g = self@.grid;
        let ghost n = size as int;
        let ghost s = states as int;
        let ghost hz = h as int;
        let ghost cells = cell_count(side_of(hz));
        proof {
            self.rule.lemma_table_fits();
            lemma_side_fits(n);
            lemma_wrap_shift(0, hz, n);
        }
        let shift = size - h % size;
        let mut ind: usize = 0;
        let mut power: usize = 1;
        let ghost mut k: nat = 0;
        let mut r: usize = 0;
        proof {
            lemma_pow0(s);
        }
        while r < side
            invariant
                r <= side,
                side == side_of(hz),
                0 <= hz <= 127,
                h == hz,
                n * n == area,
                cells == side * side,
                k == r * side,
                n == size,
                n >= 1,
                row < n,
                col < n,
                2 * n + 512 <= usize::MAX,
                is_grid(g, n, s),
                grid@ == g,
                s == states,
                shift == n - hz % n,
                0 < shift <= n,
                wrapped || (hz <= row && row + hz < n && hz <= col && col + hz < n),
                pow(s, cells) == table_len <= usize::MAX,
                ind == neighbourhood(g, n, s, hz, row as int, col as int, k),
                power == pow(s, k),
            decreases side - r,
        {
            let mut c: usize = 0;
            while c < side
                invariant
                    r < side,
                    c <= side,
                    side == side_of(hz),
                    0 <= hz <= 127,
                    h == hz,
                    n * n == area,
                    cells == side * side,
                    k == r * side + c,
                    n == size,
                    n >= 1,
                    row < n,
                    col < n,
                    2 * n + 512 <= usize::MAX,
                    is_grid(g, n, s),
                    grid@ == g,
                    s == states,
                    shift == n - hz % n,
                    0 < shift <= n,
                    wrapped || (hz <= row && row + hz < n && hz <= col && col + hz < n),
                    pow(s, cells) == table_len <= usize::MAX,
                    ind == neighbourhood(g, n, s, hz, row as int, col as int, k),
                    power == pow(s, k),
                decreases side - c,
            {
                proof {
                    lemma_cell_coords(side as int, r as int, c as int);
                    lemma_wrap_shift(row + r, hz, n);
                    lemma_wrap_shift(col + c, hz, n);
                    lemma_torus_cell(g, n, s, row + r - hz, col + c - hz);
                    if !wrapped {
                        lemma_small_mod((row + r - hz) as nat, n as nat);
                        lemma_small_mod((col + c - hz) as nat, n as nat);
                    }
                }
                let near_row = if wrapped {
                    ((row + r) % size + shift) % size
                } else {
                    row - h + r
                };
                let near_col = if wrapped {
                    ((col + c) % size + shift) % size
                } else {
                    col - h + c
                };
                assert(near_row == wrap(row + r - hz, n));
                assert(near_col == wrap(col + c - hz, n));
                let idx = near_row * size + near_col;
                let current_val = grid[idx] as usize;
                proof {
                    assert(current_val == torus_cell(
                        g,
                        n,
                        row + (k as int) / (side as int) - hz,
                        col + (k as int) % (side as int) - hz,
                    ));
                    lemma_neighbourhood_bound(g, n, s, hz, row as int, col as int, k + 1);
                    lemma_pow_monotone(s, k + 1, cells);
                    lemma_pow_step(s, k);
                    lemma_pow_positive(s, k);
                    assert(power * current_val == current_val * power) by (nonlinear_arith);
                    assert(0 <= current_val * power) by (nonlinear_arith)
                        requires
                            0 <= current_val,
                            0 < power,
                    ;
                }
                ind = ind + power * current_val;
                power = power * states;
                c = c + 1;
                proof {
                    k = k + 1;
                }
            }
            assert(r * side + side == (r + 1) * side) by (nonlinear_arith);
            r = r + 1;
        }
        proof {
            lemma_neighbourhood_bound(g, n, s, hz, row as int, col as int, cells);
        }
        ind
    }

    /// Writes the next state of the interior cell at `(is, js)` into the
    /// other buffer, at the place of the cell.
    pub fn single_update(&mut self, is: isize, js: isize)
        requires
            old(self).wf(),
            old(self)@.is_interior(is as int, js as int),
        ensures
            final(self)@ == (AutomatonView {
                prev_grid: old(self)@.prev_grid.update(
                    cell(old(self)@.size as int, is as int, js as int),
                    next_state(
                        old(self)@.grid,
                        old(self)@.size as int,
                        old(self)@.rule,
                        is as int,
                        js as int,
                    ),
                ),
                ..old(self)@
            }),
    {
        let row = is as usize;
        let col = js as usize;
        let ind = self.neighbourhood_of(row, col, false);
        let state = self.rule.get(ind);
        proof {
            self.lemma_buffers_fit();
            lemma_cell_coords(self.size as int, row as int, col as int);
        }
        let k = row * self.size + col;
        if self.flop {
            self.grid2[k] = state;
        } else {
            self.grid1[k] = state;
        }
    }

    /// Writes the next state of the cell at `(is, js)` into the other
    /// buffer, at the place of the cell. The neighbourhood may reach over the
    /// edge of the grid: every coordinate is wrapped.
    pub fn single_update_bound_check(&mut self, is: isize, js: isize)
        requires
            old(self).wf(),
            0 <= is < old(self)@.size,
            0 <= js < old(self)@.size,
        ensures
            final(self)@ == (AutomatonView {
                prev_grid: old(self)@.prev_grid.update(
                    cell(old(self)@.size as int, is as int, js as int),
                    next_state(
                        old(self)@.grid,
                        old(self)@.size as int,
                        old(self)@.rule,
                        is as int,
                        js as int,
                    ),
                ),
                ..old(self)@
            }),
    {
        let row = is as usize;
        let col = js as usize;
        let ind = self.neighbourhood_of(row, col, true);
        let state = self.rule.get(ind);
        proof {
            self.lemma_buffers_fit();
            lemma_cell_coords(self.size as int, row as int, col as int);
        }
        let k = row * self.size + col;
        if self.flop {
            self.grid2[k] = state;
        } else {
            self.grid1[k] = state;
        }
    }

    /// Writes the next states of the cells of row `row` from column `from`
    /// up to column `to` into the other buffer.
    fn update_span(&mut self, row: usize, from: usize, to: usize, wrapped: bool)
        requires
            old(self).wf(),
            row < old(self)@.size,
            from <= to <= old(self)@.size,
            wrapped || forall|col: int|
                from <= col < to ==> #[trigger] old(self)@.is_interior(row as int, col),
        ensures
            final(self)@ == (AutomatonView { prev_grid: final(self)@.prev_grid, ..old(self)@ }),
            final(self)@.prev_grid.len() == old(self)@.prev_grid.len(),
            forall|k: int|
                0 <= k < old(self)@.prev_grid.len()
                    ==> #[trigger] final(self)@.prev_grid[k] == if cell(
                    old(self)@.size as int,
                    row as int,
                    from as int,
                ) <= k < cell(old(self)@.size as int, row as int, to as int) {
                    old(self)@.next_grid()[k]
                } else {
                    old(self)@.prev_grid[k]
                },
    {
        let ghost start = self@;
        let ghost n = self.size as int;
        proof {
            self.lemma_buffers_fit();
            lemma_side_fits(n);
        }
        let mut col = from;
        while col < to
            invariant
                from <= col <= to,
                to <= n,
                row < n,
                n == start.size,
                n <= isize::MAX,
                start.wf(),
                wrapped || forall|c: int| from <= c < to
                    ==> #[trigger] start.is_interior(row as int, c),
                self@ == (AutomatonView { prev_grid: self@.prev_grid, ..start }),
                self@.prev_grid.len() == start.prev_grid.len(),
                forall|k: int|
                    0 <= k < start.prev_grid.len() ==> #[trigger] self@.prev_grid[k] == if cell(
                        n,
                        row as int,
                        from as int,
                    ) <= k < cell(n, row as int, col as int) {
                        start.next_grid()[k]
                    } else {
                        start.prev_grid[k]
                    },
            decreases to - col,
        {
            proof {
                lemma_cell_coords(n, row as int, col as int);
            }
            if wrapped {
                self.single_update_bound_check(row as isize, col as isize);
            } else {
                assert(start.is_interior(row as int, col as int));
                self.single_update(row as isize, col as isize);
            }
            col = col + 1;
        }
    }

    /// One step of the automaton. The next state of every cell is written
    /// into the other buffer, without wrapping for the cells whose
    /// neighbourhood lies inside the grid and with wrapping for the cells
    /// near an edge; then the two buffers exchange their roles.
    pub fn update(&mut self)
        requires
            old(self).wf(),
        ensures
            final(self).wf(),
            final(self)@ == old(self)@.updated(),
            final(self)@.flop != old(self)@.flop,
    {
        let ghost start = self@;
        let ghost n = self.size as int;
        let size = self.size;
        let h = self.rule.horizon() as usize;
        let bounds_low = if h < size {
            h
        } else {
            size
        };
        let bounds_high = if size - bounds_low >= bounds_low {
            size - bounds_low
        } else {
            bounds_low
        };
        let mut row: usize = 0;
        while row < size
            invariant
                row <= size,
                n == size,
                n == start.size,
                start.wf(),
                h == start.rule.horizon,
                bounds_low <= bounds_high <= size,
                bounds_low < bounds_high ==> bounds_low == h && bounds_high == size - h,
                self@ == (AutomatonView { prev_grid: self@.prev_grid, ..start }),
                self@.prev_grid.len() == start.prev_grid.len(),
                forall|k: int|
                    0 <= k < start.prev_grid.len() ==> #[trigger] self@.prev_grid[k] == if k < cell(
                        n,
                        row as int,
                        0,
                    ) {
                        start.next_grid()[k]
                    } else {
                        start.prev_grid[k]
                    },
            decreases size - row,
        {
            proof {
                lemma_cell_coords(n, row as int, 0);
                assert(cell(n, row as int + 1, 0) == cell(n, row as int, n)) by (nonlinear_arith);
            }
            if bounds_low <= row && row < bounds_high {
                self.update_span(row, 0, bounds_low, true);
                self.update_span(row, bounds_low, bounds_high, false);
                self.update_span(row, bounds_high, size, true);
            } else {
                self.update_span(row, 0, size, true);
            }
            row = row + 1;
        }
        self.flop = !self.flop;
        proof {
            assert(cell(n, n, 0) == n * n);
            assert(self@.grid =~= start.next_grid());
            lemma_step_is_grid(start.grid, n, start.rule);
        }
    }

    /// Puts the cell at `(row, col)` of the grid in state `state`.
    pub fn set_cell(&mut self, row: usize, col: usize, state: u8)
        requires
            old(self).wf(),
            row < old(self)@.size,
            col < old(self)@.size,
            state < old(self)@.states,
        ensures
            final(self).wf(),
            final(self)@ == (AutomatonView {
                grid: old(self)@.grid.update(
                    cell(old(self)@.size as int, row as int, col as int),
                    state,
                ),
                ..old(self)@
            }),
    {
        proof {
            self.lemma_buffers_fit();
            lemma_cell_coords(self.size as int, row as int, col as int);
        }
        let k = row * self.size + col;
        if self.flop {
            self.grid1[k] = state;
        } else {
            self.grid2[k] = state;
        }
    }

    /// Draws every cell of the grid anew, uniformly among the states. The
    /// result is a grid whatever is drawn.
    pub fn random_init(&mut self)
        requires
            old(self).wf(),
        ensures
            final(self).wf(),
            final(self)@ == (AutomatonView { grid: final(self)@.grid, ..old(self)@ }),
    {
        let states = self.states;
        let size = self.size;
        let ghost start = self@;
        let mut rng = rand::thread_rng();
        let mut row: usize = 0;
        while row < size
            invariant
                states == start.states,
                size == start.size,
                self.wf(),
                self@ == (AutomatonView { grid: self@.grid, ..start }),
            decreases size - row,
        {
            let mut col: usize = 0;
            while col < size
                invariant
                    row < size,
                    states == start.states,
                    size == start.size,
                    self.wf(),
                    self@ == (AutomatonView { grid: self@.grid, ..start }),
                decreases size - col,
            {
                proof {
                    lemma_cell_coords(size as int, row as int, col as int);
                    assert(self@.grid[cell(size as int, row as int, col as int)] < states);
                }
                let state = random_state(&mut rng, states);
                self.set_cell(row, col, state);
                col = col + 1;
            }
            row = row + 1;
        }
    }

    /// Lays a pattern on the grid: the background everywhere, and the
    /// pattern in the middle, cut off where it reaches over an edge. A
    /// pattern that does not suit the states of the grid is refused and the
    /// grid is left as it is.
    pub fn init_from_pattern(&mut self, pattern: &PatternSpec) -> (res: Result<(), PatternError>)
        requires
            old(self).wf(),
        ensures
            final(self).wf(),
            match res {
                Ok(_) => pattern@.suits(old(self)@.states) && final(self)@ == (AutomatonView {
                    grid: final(self)@.grid,
                    ..old(self)@
                }) && forall|row: int, col: int|
                    0 <= row < old(self)@.size && 0 <= col < old(self)@.size
                        ==> final(self)@.grid[#[trigger] cell(old(self)@.size as int, row, col)]
                        == pattern@.laid_out(old(self)@.size as int, row, col),
                Err(PatternError::PatternFormatError) => !pattern@.suits(old(self)@.states)
                    && final(self)@ == old(self)@,
                Err(PatternError::PatternFileError(_)) => false,
            },
    {
        if !pattern.suits(self.states) {
            return Err(PatternError::PatternFormatError);
        }
        let size = self.size;
        let ghost states = self.states;
        let width = pattern.width();
        let ghost start = self@;
        let ghost n = size as int;
        proof {
            self.lemma_buffers_fit();
            lemma_side_fits(n);
        }
        let mut row: usize = 0;
        while row < size
            invariant
                row <= size,
                n == size,
                n == start.size,
                states == start.states,
                width == pattern@.width(),
                pattern@.suits(states),
                2 * n + 512 <= usize::MAX,
                start.wf(),
                self@ == (AutomatonView { grid: self@.grid, ..start }),
                self.wf(),
                forall|r: int, c: int|
                    0 <= r < row && 0 <= c < n ==> self@.grid[#[trigger] cell(n, r, c)]
                        == pattern@.laid_out(n, r, c),
            decreases size - row,
        {
            let mut col: usize = 0;
            while col < size
                invariant
                    row < size,
                    col <= size,
                    n == size,
                    n == start.size,
                    states == start.states,
                    width == pattern@.width(),
                    pattern@.suits(states),
                    2 * n + 512 <= usize::MAX,
                        start.wf(),
                    self@ == (AutomatonView { grid: self@.grid, ..start }),
                    self.wf(),
                    forall|r: int, c: int|
                        0 <= r < n && 0 <= c < n && (r < row || (r == row && c < col))
                            ==> self@.grid[#[trigger] cell(n, r, c)] == pattern@.laid_out(n, r, c),
                decreases size - col,
            {
                let state = pattern.state_at(size, width, row, col);
                self.set_cell(row, col, state);
                proof {
                    assert forall|r: int, c: int|
                        0 <= r < n && 0 <= c < n && (r < row || (r == row && c < col + 1)) implies
                        self@.grid[#[trigger] cell(n, r, c)] == pattern@.laid_out(n, r, c) by {
                        lemma_cell_coords(n, r, c);
                        lemma_cell_coords(n, row as int, col as int);
                    }
                }
                col = col + 1;
            }
            row = row + 1;
        }
        Ok(())
    }

    /// The snapshots of the automaton: `steps` of them, with `skip` updates
    /// after each.
    pub fn skipped_iter(&mut self, steps: u32, skip: u32) -> (it: AutomatonIterator<'_>)
        ensures
            it.autom@ == old(self)@,
            *final(it.autom) == *final(self),
            it.skip == skip,
            it.steps == Some(steps),
            it.ct == 0,
    {
        AutomatonIterator { autom: self, skip, steps: Some(steps), ct: 0 }
    }
}

/// The snapshots of a flat automaton, one for each call of `next`. After a
/// snapshot is taken the automaton is updated `skip` times. With `steps` set,
/// that many snapshots are handed out and then no more; without, there is no
/// end. `ct` counts the snapshots handed out where `steps` is set.
pub struct AutomatonIterator<'a> {
    pub autom: &'a mut Automaton,
    pub skip: u32,
    pub steps: Option<u32>,
    pub ct: u32,
}

impl<'a> AutomatonIterator<'a> {
    /// All the snapshots asked for have been handed out.
    pub open spec fn is_exhausted(&self) -> bool {
        self.steps matches Some(v) && self.ct >= v
    }

    /// The grid as it stands, and then `skip` updates; `None` once all the
    /// snapshots asked for have been handed out.
    pub fn next(&mut self) -> (snapshot: Option<Vec<u8>>)
        requires
            old(self).autom.wf(),
        ensures
            *final(final(self).autom) == *final(old(self).autom),
            final(self).skip == old(self).skip,
            final(self).steps == old(self).steps,
            final(self).autom.wf(),
            match snapshot {
                None => old(self).is_exhausted() && final(self).autom@ == old(self).autom@
                    && final(self).ct == old(self).ct,
                Some(grid) => !old(self).is_exhausted() && grid@ == old(self).autom@.grid
                    && final(self).autom@ == old(self).autom@.after(old(self).skip as nat)
                    && final(self).ct == if old(self).steps is Some {
                    old(self).ct + 1
                } else {
                    old(self).ct as int
                },
            },
    {
        match self.steps {
            Some(v) => {
                if self.ct >= v {
                    return None;
                }
                self.ct = self.ct + 1;
            },
            None => {},
        }
        let ret = self.autom.cells().clone();
        let ghost start = self.autom@;
        let mut done: u32 = 0;
        while done < self.skip
            invariant
                done <= self.skip,
                self.autom.wf(),
                self.autom@ == start.after(done as nat),
                *final(self.autom) == *final(old(self).autom),
                self.skip == old(self).skip,
                self.steps == old(self).steps,
                self.ct == if old(self).steps is Some {
                    old(self).ct + 1
                } else {
                    old(self).ct as int
                },
            decreases self.skip - done,
        {
            self.autom.update();
            done = done + 1;
        }
        Some(ret)
    }
}

} // verus!
