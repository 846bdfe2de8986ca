//! The automaton as mathematics: a square grid that wraps around at its
//! edges, the number of the neighbourhood of a cell, and one step of a rule.
//!
//! Both engines are specified against this model, so whatever they do inside,
//! they compute the same grids.
use crate::digits::lemma_pow_step;
use crate::rule::{side_of, RuleView};
use crate::symmetry::{cell, cell_count, lemma_cell_coords};
use vstd::arithmetic::div_mod::*;
use vstd::arithmetic::power::*;
use vstd::prelude::*;

verus! {

/// A coordinate brought back onto a torus of side `n`.
pub open spec fn wrap(x: int, n: int) -> int {
    x % n
}

/// A grid of side `n`: `n * n` cells in row-major order, every one of them
/// one of `states` states.
pub open spec fn is_grid(grid: Seq<u8>, n: int, states: int) -> bool {
    &&& n >= 0
    &&& grid.len() == n * n
    &&& forall|i: int| 0 <= i < grid.len() ==> #[trigger] grid[i] < states
}

/// The state of the cell at `(row, col)` of the torus, whatever integers the
/// coordinates are.
pub open spec fn torus_cell(grid: Seq<u8>, n: int, row: int, col: int) -> u8 {
    grid[cell(n, wrap(row, n), wrap(col, n))]
}

/// The first `count` terms of the neighbourhood number of the cell at
/// `(row, col)`. The neighbours are taken row by row from the upper left;
/// the `k`-th of them has weight `states^k`.
pub open spec fn neighbourhood(
    grid: Seq<u8>,
    n: int,
    states: int,
    horizon: int,
    row: int,
    col: int,
    count: nat,
) -> int
    decreases count,
{
    if count == 0 {
        0
    } else {
        let k = count - 1;
        let side = side_of(horizon);
        neighbourhood(grid, n, states, horizon, row, col, k as nat) + torus_cell(
            grid,
            n,
            row + k / side - horizon,
            col + k % side - horizon,
        ) * pow(states, k as nat)
    }
}

/// The number of the neighbourhood of the cell at `(row, col)`.
pub open spec fn neighbourhood_index(
    grid: Seq<u8>,
    n: int,
    states: int,
    horizon: int,
    row: int,
    col: int,
) -> int {
    neighbourhood(grid, n, states, horizon, row, col, cell_count(side_of(horizon)))
}

/// The next state of the cell at `(row, col)` under `rule`.
pub open spec fn next_state(grid: Seq<u8>, n: int, rule: RuleView, row: int, col: int) -> u8 {
    rule.table[neighbourhood_index(grid, n, rule.states as int, rule.horizon as int, row, col)]
}

/// The grid after one step of `rule`: every cell takes the entry that the
/// rule has for its neighbourhood in `grid`.
pub open spec fn step(grid: Seq<u8>, n: int, rule: RuleView) -> Seq<u8> {
    Seq::new(grid.len(), |x: int| next_state(grid, n, rule, x / n, x % n))
}

/// The grid after `count` steps of `rule`.
pub open spec fn steps(grid: Seq<u8>, n: int, rule: RuleView, count: nat) -> Seq<u8>
    decreases count,
{
    if count == 0 {
        grid
    } else {
        step(steps(grid, n, rule, (count - 1) as nat), n, rule)
    }
}

/// A cell of the torus is a cell of the grid.
pub proof fn lemma_torus_cell(grid: Seq<u8>, n: int, states: int, row: int, col: int)
    requires
        is_grid(grid, n, states),
        n >= 1,
    ensures
        0 <= wrap(row, n) < n,
        0 <= wrap(col, n) < n,
        0 <= cell(n, wrap(row, n), wrap(col, n)) < grid.len(),
        torus_cell(grid, n, row, col) < states,
{
    lemma_mod_bound(row, n);
    lemma_mod_bound(col, n);
    lemma_cell_coords(n, wrap(row, n), wrap(col, n));
}

/// The first `count` terms of a neighbourhood number stay below `states^count`.
pub proof fn lemma_neighbourhood_bound(
    grid: Seq<u8>,
    n: int,
    states: int,
    horizon: int,
    row: int,
    col: int,
    count: nat,
)
    requires
        is_grid(grid, n, states),
        n >= 1,
    ensures
        0 <= neighbourhood(grid, n, states, horizon, row, col, count) < pow(states, count),
    decreases count,
{
    if count == 0 {
        lemma_pow0(states);
    } else {
        let k = count - 1;
        let side = side_of(horizon);
        lemma_neighbourhood_bound(grid, n, states, horizon, row, col, k as nat);
        lemma_torus_cell(grid, n, states, row + k / side - horizon, col + k % side - horizon);
        let v = torus_cell(grid, n, row + k / side - horizon, col + k % side - horizon) as int;
        let w = pow(states, k as nat);
        lemma_pow_step(states, k as nat);
        lemma_pow_positive(states, k as nat);
        assert(0 <= v * w && v * w + w <= states * w) by (nonlinear_arith)
            requires
                0 <= v < states,
                w > 0,
        ;
    }
}

/// The next state of every cell of a grid is an entry of the rule, and so a
/// state: a step of a well-formed rule takes grids to grids.
pub proof fn lemma_step_is_grid(grid: Seq<u8>, n: int, rule: RuleView)
    requires
        rule.wf(),
        is_grid(grid, n, rule.states as int),
    ensures
        is_grid(step(grid, n, rule), n, rule.states as int),
        forall|row: int, col: int|
            n >= 1 ==> 0 <= #[trigger] neighbourhood_index(
                grid,
                n,
                rule.states as int,
                rule.horizon as int,
                row,
                col,
            ) < rule.table.len(),
{
    if n >= 1 {
        assert forall|row: int, col: int|
            0 <= #[trigger] neighbourhood_index(
                grid,
                n,
                rule.states as int,
                rule.horizon as int,
                row,
                col,
            ) < rule.table.len() by {
            lemma_neighbourhood_bound(
                grid,
                n,
                rule.states as int,
                rule.horizon as int,
                row,
                col,
                cell_count(side_of(rule.horizon as int)),
            );
        }
    }
    let next = step(grid, n, rule);
    assert forall|i: int| 0 <= i < next.len() implies #[trigger] next[i] < rule.states by {
        assert(n >= 1) by (nonlinear_arith)
            requires
                n >= 0,
                0 <= i < n * n,
        ;
        let idx = neighbourhood_index(
            grid,
            n,
            rule.states as int,
            rule.horizon as int,
            i / n,
            i % n,
        );
        assert(0 <= idx < rule.table.len());
        assert(rule.table[idx] < rule.states);
    }
}

/// A grid that fits in memory has a side whose double and a little more fit
/// in a machine word.
pub proof fn lemma_side_fits(size: int)
    requires
        0 <= size,
        size * size <= usize::MAX,
    ensures
        2 * size + 512 <= usize::MAX,
        size <= isize::MAX,
{
    if size >= 1024 {
        assert(size * size >= 1024 * size) by (nonlinear_arith)
            requires
                size >= 1024,
        ;
    }
}

/// A coordinate of a grid that has been scaled up comes from a coordinate of
/// the grid.
pub proof fn lemma_scaled_coord(a: int, size: int, scale: int)
    requires
        0 <= size,
        0 <= scale,
        0 <= a < size * scale,
    ensures
        scale > 0,
        0 <= a / scale < size,
{
    assert(scale > 0) by (nonlinear_arith)
        requires
            0 <= size,
            0 <= scale,
            0 < size * scale,
    ;
    lemma_fundamental_div_mod(a, scale);
    lemma_mod_bound(a, scale);
    lemma_div_pos_is_pos(a, scale);
    let q = a / scale;
    assert(q < size) by (nonlinear_arith)
        requires
            a == scale * q + a % scale,
            0 <= a % scale,
            a < size * scale,
            scale > 0,
    ;
}

} // verus!
