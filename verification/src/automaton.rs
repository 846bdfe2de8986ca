//! The engines that run a rule on a grid, what they have in common, and what
//! goes in and out of them: starting patterns and scaled snapshots.
pub mod automaton_base;
pub mod pattern;
pub mod tiled_automaton;
pub mod tiles;

pub use automaton_base::{Automaton, AutomatonIterator, AutomatonView};
pub use pattern::{parse_pattern, PatternError, PatternSpec, PatternView};
pub use tiled_automaton::{duplicate_array_tiled, TiledAutomaton, TiledAutomatonIterator};
pub use tiles::{TiledAutomatonView, TiledGrid, TILE_SIZE};

use crate::automaton::automaton_base::lemma_after;
use crate::lattice::{lemma_scaled_coord, lemma_side_fits, step};
use crate::rule::{Rule, RuleView};
use crate::symmetry::{cell, lemma_cell_coords};
use vstd::prelude::*;

verus! {

/// What every engine offers, so that a caller need not know which one it
/// runs.
pub trait AutomatonImpl: Sized {
    /// The automaton is well formed.
    spec fn well_formed(&self) -> bool;

    /// The side of the grid that was asked for.
    spec fn asked_size(&self) -> usize;

    /// The number of states of a cell.
    spec fn cell_states(&self) -> u8;

    /// The rule.
    spec fn rule_view(&self) -> RuleView;

    /// The side of the grid that the automaton runs.
    spec fn side(&self) -> int;

    /// The grid, row by row.
    spec fn grid_view(&self) -> Seq<u8>;

    /// An automaton of this kind can be made for these states, this side and
    /// this rule.
    spec fn can_hold(states: u8, size: usize, rule: RuleView) -> bool;

    /// Makes an automaton for a grid of side `size`, with every cell in
    /// state 0.
    fn new(states: u8, size: usize, rule: Rule) -> (a: Self)
        requires
            Self::can_hold(states, size, rule@),
        ensures
            a.well_formed(),
            a.asked_size() == size,
            a.cell_states() == states,
            a.rule_view() == rule@,
            forall|i: int| 0 <= i < a.grid_view().len() ==> #[trigger] a.grid_view()[i] == 0,
    ;

    /// Makes an automaton for the states of a rule.
    fn from_rule(rule: Rule, size: usize) -> (a: Self)
        requires
            Self::can_hold(rule@.states, size, rule@),
        ensures
            a.well_formed(),
            a.asked_size() == size,
            a.cell_states() == rule@.states,
            a.rule_view() == rule@,
            forall|i: int| 0 <= i < a.grid_view().len() ==> #[trigger] a.grid_view()[i] == 0,
    {
        let states = rule.states();
        Self::new(states, size, rule)
    }

    /// The side of the grid that was asked for.
    fn size(&self) -> (n: usize)
        ensures
            n == self.asked_size(),
    ;

    /// The number of states of a cell.
    fn states(&self) -> (s: u8)
        ensures
            s == self.cell_states(),
    ;

    /// Whether the automaton is well formed.
    fn is_well_formed(&self) -> (ok: bool)
        ensures
            ok == self.well_formed(),
    ;

    /// Lays a pattern on the grid. A pattern that does not suit the states
    /// of the grid is refused and the grid is left as it is.
    fn init_from_pattern(&mut self, pattern: &PatternSpec) -> (res: Result<(), PatternError>)
        requires
            old(self).well_formed(),
        ensures
            final(self).well_formed(),
            final(self).asked_size() == old(self).asked_size(),
            final(self).cell_states() == old(self).cell_states(),
            final(self).rule_view() == old(self).rule_view(),
            final(self).side() == old(self).side(),
            match res {
                Ok(_) => pattern@.suits(old(self).cell_states()) && forall|row: int, col: int|
                    0 <= row < old(self).side() && 0 <= col < old(self).side()
                        ==> final(self).grid_view()[#[trigger] cell(old(self).side(), row, col)]
                        == pattern@.laid_out(old(self).side(), row, col),
                Err(PatternError::PatternFormatError) => !pattern@.suits(old(self).cell_states())
                    && final(self).grid_view() == old(self).grid_view(),
                Err(PatternError::PatternFileError(_)) => false,
            },
    ;

    /// One step of the automaton.
    fn update(&mut self)
        requires
            old(self).well_formed(),
        ensures
            final(self).well_formed(),
            final(self).asked_size() == old(self).asked_size(),
            final(self).cell_states() == old(self).cell_states(),
            final(self).rule_view() == old(self).rule_view(),
            final(self).side() == old(self).side(),
            final(self).grid_view() == step(
                old(self).grid_view(),
                old(self).side(),
                old(self).rule_view(),
            ),
    ;

    /// Draws every cell of the grid anew, uniformly among the states.
    fn random_init(&mut self)
        requires
            old(self).well_formed(),
        ensures
            final(self).well_formed(),
            final(self).asked_size() == old(self).asked_size(),
            final(self).cell_states() == old(self).cell_states(),
            final(self).rule_view() == old(self).rule_view(),
            final(self).side() == old(self).side(),
    ;

    /// The grid, row by row.
    fn grid(&self) -> (g: Vec<u8>)
        requires
            self.well_formed(),
        ensures
            g@ == self.grid_view(),
    ;
}

impl AutomatonImpl for Automaton {
    open spec fn well_formed(&self) -> bool {
        self@.wf()
    }

    open spec fn asked_size(&self) -> usize {
        self@.size
    }

    open spec fn cell_states(&self) -> u8 {
        self@.states
    }

    open spec fn rule_view(&self) -> RuleView {
        self@.rule
    }

    open spec fn side(&self) -> int {
        self@.size as int
    }

    open spec fn grid_view(&self) -> Seq<u8> {
        self@.grid
    }

    open spec fn can_hold(states: u8, size: usize, rule: RuleView) -> bool {
        &&& rule.wf()
        &&& states == rule.states
        &&& size * size <= usize::MAX
        &&& (size > 0 ==> states >= 1)
    }

    fn new(states: u8, size: usize, rule: Rule) -> (a: Self) {
        let grid = vec![0u8; size * size];
        Automaton::new(states, size, grid, rule)
    }

    fn size(&self) -> (n: usize) {
        Automaton::size(self)
    }

    fn states(&self) -> (s: u8) {
        Automaton::states(self)
    }

    fn is_well_formed(&self) -> (ok: bool) {
        Automaton::is_well_formed(self)
    }

    fn init_from_pattern(&mut self, pattern: &PatternSpec) -> (res: Result<(), PatternError>) {
        Automaton::init_from_pattern(self, pattern)
    }

    fn update(&mut self) {
        Automaton::update(self)
    }

    fn random_init(&mut self) {
        Automaton::random_init(self)
    }

    fn grid(&self) -> (g: Vec<u8>) {
        self.cells().clone()
    }
}

impl AutomatonImpl for TiledAutomaton {
    open spec fn well_formed(&self) -> bool {
        self@.wf()
    }

    open spec fn asked_size(&self) -> usize {
        self@.size
    }

    open spec fn cell_states(&self) -> u8 {
        self@.states
    }

    open spec fn rule_view(&self) -> RuleView {
        self@.rule
    }

    open spec fn side(&self) -> int {
        self@.extent()
    }

    open spec fn grid_view(&self) -> Seq<u8> {
        self@.cells()
    }

    open spec fn can_hold(states: u8, size: usize, rule: RuleView) -> bool {
        &&& rule.wf()
        &&& rule.horizon == 1
        &&& states == rule.states
        &&& states >= 1
        &&& size * size <= usize::MAX
    }

    fn new(states: u8, size: usize, rule: Rule) -> (a: Self) {
        TiledAutomaton::new(states, size, rule)
    }

    fn size(&self) -> (n: usize) {
        TiledAutomaton::size(self)
    }

    fn states(&self) -> (s: u8) {
        TiledAutomaton::states(self)
    }

    fn is_well_formed(&self) -> (ok: bool) {
        TiledAutomaton::is_well_formed(self)
    }

    fn init_from_pattern(&mut self, pattern: &PatternSpec) -> (res: Result<(), PatternError>) {
        TiledAutomaton::init_from_pattern(self, pattern)
    }

    fn update(&mut self) {
        TiledAutomaton::update(self)
    }

    fn random_init(&mut self) {
        TiledAutomaton::random_init(self)
    }

    fn grid(&self) -> (g: Vec<u8>) {
        self.cells()
    }
}

/// The two engines agree. A flat automaton and a tiled automaton with the
/// same rule and the same grid, of a side that the tiles cover exactly, have
/// the same grid after any number of updates.
pub proof fn engines_agree(flat: AutomatonView, tiled: TiledAutomatonView, count: nat)
    requires
        flat.wf(),
        tiled.wf(),
        flat.rule == tiled.rule,
        flat.size == tiled.size,
        tiled.size % 256 == 0,
        flat.grid == tiled.cells(),
    ensures
        flat.after(count).grid == tiled.cells_after(count),
{
    lemma_after(flat, count);
}

/// A copy of a grid of side `size` in which every cell is repeated `scale`
/// times along both axes; with a scale of one or less, the grid itself.
pub fn duplicate_array(s: &[u8], size: usize, scale: u16) -> (out: Vec<u8>)
    requires
        s@.len() == size * size,
        scale > 1 ==> (size * scale) * (size * scale) <= usize::MAX,
    ensures
        scale <= 1 ==> out@ == s@,
        scale > 1 ==> out@.len() == (size * scale) * (size * scale) && forall|a: int, b: int|
            0 <= a < size * scale && 0 <= b < size * scale ==> out@[#[trigger] cell(
                size * scale,
                a,
                b,
            )] == s@[cell(size as int, a / (scale as int), b / (scale as int))],
{
    if scale > 1 {
        let factor = scale as usize;
        let ghost big = size * scale;
        let ghost n = size as int;
        proof {
            assert(size * scale >= 0) by (nonlinear_arith)
                requires
                    size >= 0,
                    scale >= 0,
            ;
            lemma_side_fits(big);
        }
        let scaled_size = size * factor;
        let ghost area = s.len();
        let mut out: Vec<u8> = Vec::new();
        let mut i: usize = 0;
        while i < scaled_size
            invariant
                i <= scaled_size,
                scaled_size == big,
                big == size * scale,
                factor == scale,
                n == size,
                area == n * n,
                s@.len() == area,
                big * big <= usize::MAX,
                out@.len() == cell(big, i as int, 0),
                forall|a: int, b: int|
                    0 <= a < i && 0 <= b < big ==> out@[#[trigger] cell(big, a, b)] == s@[cell(
                        n,
                        a / (scale as int),
                        b / (scale as int),
                    )],
            decreases scaled_size - i,
        {
            let mut j: usize = 0;
            while j < scaled_size
                invariant
                    i < scaled_size,
                    j <= scaled_size,
                    scaled_size == big,
                    big == size * scale,
                    factor == scale,
                    n == size,
                    area == n * n,
                    s@.len() == area,
                    big * big <= usize::MAX,
                    out@.len() == cell(big, i as int, j as int),
                    forall|a: int, b: int|
                        0 <= a < big && 0 <= b < big && (a < i || (a == i && b < j))
                            ==> out@[#[trigger] cell(big, a, b)] == s@[cell(
                            n,
                            a / (scale as int),
                            b / (scale as int),
                        )],
                decreases scaled_size - j,
            {
                proof {
                    lemma_scaled_coord(i as int, n, factor as int);
                    lemma_scaled_coord(j as int, n, factor as int);
                    lemma_cell_coords(n, i as int / factor as int, j as int / factor as int);
                    lemma_cell_coords(big, i as int, j as int);
                }
                let item = s[(i / factor) * size + (j / factor)];
                let ghost before = out@;
                out.push(item);
                proof {
                    assert forall|a: int, b: int|
                        0 <= a < big && 0 <= b < big && (a < i || (a == i && b < j + 1))
                            implies out@[#[trigger] cell(
                        big,
                        a,
                        b,
                    )] == s@[cell(n, a / (scale as int), b / (scale as int))] by {
                        lemma_cell_coords(big, a, b);
                        if a < i {
                            assert(cell(big, a, b) < cell(big, i as int, 0)) by (nonlinear_arith)
                                requires
                                    0 <= a < i,
                                    0 <= b < big,
                                    cell(big, a, b) == a * big + b,
                                    cell(big, i as int, 0) == i * big + 0,
                            ;
                        }
                        if a < i || b < j {
                            assert(out@[cell(big, a, b)] == before[cell(big, a, b)]);
                        }
                    }
                }
                j = j + 1;
            }
            assert(cell(big, i as int, big) == cell(big, i as int + 1, 0)) by (nonlinear_arith)
                requires
                    cell(big, i as int, big) == i * big + big,
                    cell(big, i as int + 1, 0) == (i + 1) * big + 0,
            ;
            i = i + 1;
        }
        out
    } else {
        vstd::slice::slice_to_vec(s)
    }
}

} // verus!
