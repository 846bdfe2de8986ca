//! The eight symmetries of a square neighbourhood, acting on neighbourhood
//! numbers.
//!
//! A neighbourhood of side `side` over `states` states is a number below
//! `states^(side * side)`; its digit of weight `states^(i * side + j)` is the
//! state of the cell in row `i` and column `j`. A symmetry moves the cells and
//! so permutes the digits. The transforms below work on the number alone.
use crate::digits::{
    digit, from_digits, is_digit_fn, lemma_digit_of_from_digits, lemma_digit_range,
    lemma_digit_term_bound, lemma_digits_determine, lemma_exponent_below_64,
    lemma_from_digits_bound, lemma_pow_monotone, lemma_set_digit, pow_u64,
};
use vstd::arithmetic::div_mod::*;
use vstd::arithmetic::mul::*;
use vstd::arithmetic::power::*;
use vstd::prelude::*;

verus! {

/// A symmetry of the square: an optional reflection in the main diagonal,
/// followed by optional reversals of the rows and of the columns.
pub struct Symmetry {
    /// Rows and columns change places.
    pub transpose: bool,
    /// The rows are taken in reverse order.
    pub flip_rows: bool,
    /// The columns are taken in reverse order.
    pub flip_cols: bool,
}

/// The index of the cell in row `row` and column `col`.
pub open spec fn cell(side: int, row: int, col: int) -> int {
    row * side + col
}

/// The number of cells of a neighbourhood of side `side`.
pub open spec fn cell_count(side: int) -> nat {
    (side * side) as nat
}

impl Symmetry {
    /// The symmetry that moves nothing.
    pub open spec fn identity() -> Symmetry {
        Symmetry { transpose: false, flip_rows: false, flip_cols: false }
    }

    /// Reflection in the main diagonal.
    pub open spec fn transposition() -> Symmetry {
        Symmetry { transpose: true, flip_rows: false, flip_cols: false }
    }

    /// Reversal of the order of the rows.
    pub open spec fn row_reversal() -> Symmetry {
        Symmetry { transpose: false, flip_rows: true, flip_cols: false }
    }

    /// Reversal of the order of the columns.
    pub open spec fn col_reversal() -> Symmetry {
        Symmetry { transpose: false, flip_rows: false, flip_cols: true }
    }

    /// The `i`-th of the eight symmetries, for `0 <= i < 8`.
    pub open spec fn nth(i: int) -> Symmetry {
        Symmetry {
            transpose: i % 2 == 1,
            flip_rows: (i / 2) % 2 == 1,
            flip_cols: (i / 4) % 2 == 1,
        }
    }

    /// The place of this symmetry among the eight.
    pub open spec fn index(self) -> int {
        let ones = if self.transpose { 1int } else { 0 };
        let twos = if self.flip_rows { 2int } else { 0 };
        let fours = if self.flip_cols { 4int } else { 0 };
        ones + twos + fours
    }

    /// The row of the cell whose state this symmetry brings to `(row, col)`.
    pub open spec fn source_row(self, side: int, row: int, col: int) -> int {
        let u = if self.transpose { col } else { row };
        if self.flip_rows { side - 1 - u } else { u }
    }

    /// The column of the cell whose state this symmetry brings to `(row, col)`.
    pub open spec fn source_col(self, side: int, row: int, col: int) -> int {
        let v = if self.transpose { row } else { col };
        if self.flip_cols { side - 1 - v } else { v }
    }

    /// The cell whose state this symmetry brings to cell `k`.
    pub open spec fn source_cell(self, side: int, k: int) -> int {
        cell(
            side,
            self.source_row(side, k / side, k % side),
            self.source_col(side, k / side, k % side),
        )
    }

    /// The symmetry that applies `other` first and `self` second.
    pub open spec fn after(self, other: Symmetry) -> Symmetry {
        if other.transpose {
            Symmetry {
                transpose: !self.transpose,
                flip_rows: other.flip_rows != self.flip_cols,
                flip_cols: other.flip_cols != self.flip_rows,
            }
        } else {
            Symmetry {
                transpose: self.transpose,
                flip_rows: other.flip_rows != self.flip_rows,
                flip_cols: other.flip_cols != self.flip_cols,
            }
        }
    }

    /// The symmetry that undoes this one.
    pub open spec fn inverse(self) -> Symmetry {
        if self.transpose {
            Symmetry { transpose: true, flip_rows: self.flip_cols, flip_cols: self.flip_rows }
        } else {
            self
        }
    }

    /// The neighbourhood number `p` after this symmetry: its state at cell `k`
    /// is the state of `p` at `source_cell(k)`.
    pub open spec fn apply(self, p: int, states: int, side: int) -> int {
        from_digits(|k: int| digit(p, states, self.source_cell(side, k)), states, cell_count(side))
    }
}

/// The least of the first `count` images of `p`, and `p` itself.
pub open spec fn least_image(p: int, states: int, side: int, count: nat) -> int
    decreases count,
{
    if count == 0 {
        p
    } else {
        let rest = least_image(p, states, side, (count - 1) as nat);
        let image = Symmetry::nth(count - 1).apply(p, states, side);
        if image < rest { image } else { rest }
    }
}

/// The least neighbourhood number among the eight images of `p`: the
/// representative of the class of `p` under the symmetries of the square.
pub open spec fn orbit_min(p: int, states: int, side: int) -> int {
    least_image(p, states, side, 8)
}

/// `p` is a neighbourhood number for `states` states and side `side`.
pub open spec fn is_position(p: int, states: int, side: int) -> bool {
    &&& states >= 1
    &&& side >= 0
    &&& 0 <= p < pow(states, cell_count(side))
}

/// Row and column below `side` give a cell index below `side * side`, from
/// which division and remainder recover them.
pub proof fn lemma_cell_coords(side: int, row: int, col: int)
    requires
        0 <= row < side,
        0 <= col < side,
    ensures
        0 <= cell(side, row, col) < cell_count(side),
        cell(side, row, col) / side == row,
        cell(side, row, col) % side == col,
{
    lemma_fundamental_div_mod_converse(row * side + col, side, row, col);
    assert(row * side + col < side * side && row * side >= 0) by (nonlinear_arith)
        requires
            0 <= row < side,
            0 <= col < side,
    ;
}

/// A cell index below `side * side` splits into a row and a column below `side`.
pub proof fn lemma_cell_split(side: int, k: int)
    requires
        0 <= side,
        0 <= k < cell_count(side),
    ensures
        0 <= k / side < side,
        0 <= k % side < side,
        k == cell(side, k / side, k % side),
{
    assert(side > 0) by (nonlinear_arith)
        requires
            0 <= side,
            0 <= k < side * side,
    ;
    lemma_fundamental_div_mod(k, side);
    lemma_mod_bound(k, side);
    lemma_div_pos_is_pos(k, side);
    lemma_mul_is_commutative(side, k / side);
    let q = k / side;
    assert(q < side) by (nonlinear_arith)
        requires
            k == q * side + k % side,
            0 <= k % side,
            k < side * side,
            side > 0,
    ;
}

/// A symmetry sends cells to cells, and `after` composes the sources.
pub proof fn lemma_source_cell(g: Symmetry, h: Symmetry, side: int, k: int)
    requires
        0 <= side,
        0 <= k < cell_count(side),
    ensures
        0 <= g.source_cell(side, k) < cell_count(side),
        h.source_cell(side, g.source_cell(side, k)) == g.after(h).source_cell(side, k),
        g.inverse().source_cell(side, g.source_cell(side, k)) == k,
        Symmetry::identity().source_cell(side, k) == k,
{
    lemma_cell_split(side, k);
    let row = k / side;
    let col = k % side;
    let r = g.source_row(side, row, col);
    let c = g.source_col(side, row, col);
    lemma_cell_coords(side, r, c);
    let r2 = h.source_row(side, r, c);
    let c2 = h.source_col(side, r, c);
    lemma_cell_coords(side, r2, c2);
    let r3 = g.inverse().source_row(side, r, c);
    let c3 = g.inverse().source_col(side, r, c);
    assert(r3 == row && c3 == col);
}

/// The digits that a symmetry reads are digits.
proof fn lemma_apply_digit_fn(g: Symmetry, p: int, states: int, side: int)
    requires
        states >= 1,
    ensures
        is_digit_fn(|k: int| digit(p, states, g.source_cell(side, k)), states, cell_count(side)),
{
    let f = |k: int| digit(p, states, g.source_cell(side, k));
    assert forall|k: int| 0 <= k < cell_count(side) implies 0 <= #[trigger] f(k) < states by {
        lemma_digit_range(p, states, g.source_cell(side, k));
    }
}

/// The image of a neighbourhood number is a neighbourhood number, and its
/// state at each cell is the state of `p` at the source of that cell.
pub proof fn lemma_apply(g: Symmetry, p: int, states: int, side: int)
    requires
        states >= 1,
        side >= 0,
    ensures
        is_position(g.apply(p, states, side), states, side),
        forall|k: int|
            0 <= k < cell_count(side) ==> #[trigger] digit(g.apply(p, states, side), states, k)
                == digit(p, states, g.source_cell(side, k)),
{
    let f = |k: int| digit(p, states, g.source_cell(side, k));
    lemma_apply_digit_fn(g, p, states, side);
    lemma_from_digits_bound(f, states, cell_count(side));
    assert forall|k: int| 0 <= k < cell_count(side) implies #[trigger] digit(
        g.apply(p, states, side),
        states,
        k,
    ) == digit(p, states, g.source_cell(side, k)) by {
        lemma_digit_of_from_digits(f, states, cell_count(side), k as nat);
    }
}

/// A neighbourhood number with the states that `g` asks for is the image under `g`.
pub proof fn lemma_apply_unique(g: Symmetry, p: int, q: int, states: int, side: int)
    requires
        is_position(q, states, side),
        forall|k: int|
            0 <= k < cell_count(side) ==> #[trigger] digit(q, states, k) == digit(
                p,
                states,
                g.source_cell(side, k),
            ),
    ensures
        q == g.apply(p, states, side),
{
    lemma_apply(g, p, states, side);
    lemma_digits_determine(q, g.apply(p, states, side), states, cell_count(side));
}

/// Applying `h` and then `g` is applying `g.after(h)`.
pub proof fn lemma_apply_after(g: Symmetry, h: Symmetry, p: int, states: int, side: int)
    requires
        states >= 1,
        side >= 0,
    ensures
        g.apply(h.apply(p, states, side), states, side) == g.after(h).apply(p, states, side),
{
    let mid = h.apply(p, states, side);
    let end = g.apply(mid, states, side);
    lemma_apply(h, p, states, side);
    lemma_apply(g, mid, states, side);
    assert forall|k: int| 0 <= k < cell_count(side) implies #[trigger] digit(end, states, k)
        == digit(p, states, g.after(h).source_cell(side, k)) by {
        lemma_source_cell(g, h, side, k);
    }
    lemma_apply_unique(g.after(h), p, end, states, side);
}

/// The identity leaves every neighbourhood number as it is.
pub proof fn lemma_apply_identity(p: int, states: int, side: int)
    requires
        is_position(p, states, side),
    ensures
        Symmetry::identity().apply(p, states, side) == p,
{
    assert forall|k: int| 0 <= k < cell_count(side) implies #[trigger] digit(p, states, k)
        == digit(p, states, Symmetry::identity().source_cell(side, k)) by {
        lemma_source_cell(Symmetry::identity(), Symmetry::identity(), side, k);
    }
    lemma_apply_unique(Symmetry::identity(), p, p, states, side);
}

/// The inverse symmetry brings an image back to where it came from.
pub proof fn lemma_apply_inverse(g: Symmetry, p: int, states: int, side: int)
    requires
        is_position(p, states, side),
    ensures
        g.inverse().apply(g.apply(p, states, side), states, side) == p,
        g.apply(g.inverse().apply(p, states, side), states, side) == p,
{
    lemma_apply_after(g.inverse(), g, p, states, side);
    lemma_apply_after(g, g.inverse(), p, states, side);
    assert(g.inverse().after(g) == Symmetry::identity());
    assert(g.after(g.inverse()) == Symmetry::identity());
    lemma_apply_identity(p, states, side);
}

/// The class representative is an image of `p` and no image is smaller.
pub proof fn lemma_orbit_min(p: int, states: int, side: int)
    requires
        is_position(p, states, side),
    ensures
        exists|g: Symmetry| orbit_min(p, states, side) == #[trigger] g.apply(p, states, side),
        forall|g: Symmetry| orbit_min(p, states, side) <= #[trigger] g.apply(p, states, side),
        is_position(orbit_min(p, states, side), states, side),
        orbit_min(p, states, side) <= p,
{
    reveal_with_fuel(least_image, 9);
    lemma_apply_identity(p, states, side);
    let m = orbit_min(p, states, side);
    assert(Symmetry::nth(0) == Symmetry::identity());
    assert forall|g: Symmetry| m <= #[trigger] g.apply(p, states, side) by {
        assert(g == Symmetry::nth(g.index()));
    }
    let w = choose|i: int| 0 <= i < 8 && m == Symmetry::nth(i).apply(p, states, side);
    assert(m == Symmetry::nth(w).apply(p, states, side));
    lemma_apply(Symmetry::nth(w), p, states, side);
}

/// Every image of `p` has the class representative of `p`.
pub proof fn lemma_orbit_min_of_image(g: Symmetry, p: int, states: int, side: int)
    requires
        is_position(p, states, side),
    ensures
        orbit_min(g.apply(p, states, side), states, side) == orbit_min(p, states, side),
{
    let q = g.apply(p, states, side);
    lemma_apply(g, p, states, side);
    lemma_orbit_min(p, states, side);
    lemma_orbit_min(q, states, side);
    let a = choose|a: Symmetry| orbit_min(p, states, side) == #[trigger] a.apply(p, states, side);
    let b = choose|b: Symmetry| orbit_min(q, states, side) == #[trigger] b.apply(q, states, side);
    // The representative of `q` is an image of `p`.
    lemma_apply_after(b, g, p, states, side);
    assert(orbit_min(p, states, side) <= b.after(g).apply(p, states, side));
    // The representative of `p` is an image of `q`.
    lemma_apply_inverse(g, p, states, side);
    lemma_apply_after(a, g.inverse(), q, states, side);
    assert(orbit_min(q, states, side) <= a.after(g.inverse()).apply(q, states, side));
}

/// The class representative represents itself.
pub proof fn lemma_orbit_min_idempotent(p: int, states: int, side: int)
    requires
        is_position(p, states, side),
    ensures
        orbit_min(orbit_min(p, states, side), states, side) == orbit_min(p, states, side),
{
    lemma_orbit_min(p, states, side);
    let a = choose|a: Symmetry| orbit_min(p, states, side) == #[trigger] a.apply(p, states, side);
    lemma_orbit_min_of_image(a, p, states, side);
}

/// Where every neighbourhood number fits in 64 bits and there are at least two
/// states, the neighbourhood has at most seven cells a side.
proof fn lemma_side_small(states: int, side: int)
    requires
        states >= 2,
        side >= 0,
        pow(states, cell_count(side)) <= u64::MAX,
    ensures
        side <= 7,
        side * side <= 63,
{
    lemma_exponent_below_64(states, cell_count(side));
    assert(side <= 7) by (nonlinear_arith)
        requires
            side >= 0,
            side * side <= 63,
    ;
}

/// With a single state the only neighbourhood number is zero.
proof fn lemma_single_state(g: Symmetry, p: int, side: int)
    requires
        is_position(p, 1, side),
    ensures
        p == 0,
        g.apply(p, 1, side) == 0,
{
    lemma1_pow(cell_count(side));
    lemma_apply(g, p, 1, side);
}

/// Exchanges the digits of weight `states^k1` and `states^k2`.
fn swap_digits(value: u64, states: u8, k1: u32, k2: u32, Ghost(len): Ghost<nat>) -> (r: u64)
    requires
        states >= 1,
        value < pow(states as int, len) <= u64::MAX,
        k1 < len,
        k2 < len,
        k1 != k2,
    ensures
        r < pow(states as int, len),
        digit(r as int, states as int, k1 as int) == digit(value as int, states as int, k2 as int),
        digit(r as int, states as int, k2 as int) == digit(value as int, states as int, k1 as int),
        forall|j: int|
            0 <= j < len && j != k1 && j != k2 ==> #[trigger] digit(r as int, states as int, j)
                == digit(value as int, states as int, j),
{
    let s = states as u64;
    proof {
        lemma_pow_monotone(s as int, k1 as nat, len);
        lemma_pow_monotone(s as int, k2 as nat, len);
    }
    let w1 = pow_u64(s, k1);
    let w2 = pow_u64(s, k2);
    let a = (value / w1) % s;
    let b = (value / w2) % s;
    proof {
        let base = s as int;
        let v = value as int;
        assert(a == digit(v, base, k1 as int));
        assert(b == digit(v, base, k2 as int));
        lemma_digit_range(v, base, k1 as int);
        lemma_digit_range(v, base, k2 as int);
        // Clear both digits, then write each where the other stood.
        lemma_set_digit(v, base, len, k1 as nat, 0);
        let q1 = v + (0 - a) * w1;
        lemma_digit_term_bound(q1, base, len, k2 as nat);
        lemma_set_digit(q1, base, len, k2 as nat, 0);
        let q2 = q1 + (0 - b) * w2;
        lemma_set_digit(q2, base, len, k1 as nat, b as int);
        let q3 = q2 + (b - 0) * w1;
        lemma_digit_term_bound(q3, base, len, k1 as nat);
        lemma_set_digit(q3, base, len, k2 as nat, a as int);
        let q4 = q3 + (a - 0) * w2;
        lemma_digit_term_bound(q4, base, len, k2 as nat);
        lemma_digit_term_bound(v, base, len, k1 as nat);
        assert((0 - a) * w1 == -(a * w1)) by (nonlinear_arith);
        assert((0 - b) * w2 == -(b * w2)) by (nonlinear_arith);
        assert(q2 == v - (a * w1 + b * w2));
        assert(q4 == q2 + (a * w2 + b * w1));
        assert(0 <= b * w1 <= q3 <= q4);
        assert(0 <= a * w2 <= q4);
    }
    let low = value - (a * w1 + b * w2);
    low + (a * w2 + b * w1)
}

/// The neighbourhood number of the transposed neighbourhood: the state at
/// `(i, j)` becomes the state at `(j, i)`.
pub fn transpose_position(position: u64, states: u8, side: usize) -> (r: u64)
    requires
        is_position(position as int, states as int, side as int),
        pow(states as int, cell_count(side as int)) <= u64::MAX,
    ensures
        r == Symmetry::transposition().apply(position as int, states as int, side as int),
{
    if states < 2 {
        proof {
            lemma_single_state(Symmetry::transposition(), position as int, side as int);
        }
        return position;
    }
    let ghost n = side as int;
    let ghost base = states as int;
    let ghost len = cell_count(n);
    proof {
        lemma_side_small(base, n);
    }
    let mut new_pos = position;
    let mut i: usize = 0;
    while i < side
        invariant
            i <= side <= 7,
            n == side,
            base == states,
            len == cell_count(n),
            n * n <= 63,
            states >= 2,
            new_pos < pow(base, len) <= u64::MAX,
            forall|a: int, b: int|
                0 <= a < n && 0 <= b < n ==> digit(new_pos as int, base, #[trigger] cell(n, a, b))
                    == digit(
                    position as int,
                    base,
                    if a < i || b < i {
                        cell(n, b, a)
                    } else {
                        cell(n, a, b)
                    },
                ),
        decreases side - i,
    {
        let mut j: usize = i + 1;
        while j < side
            invariant
                i < side <= 7,
                i + 1 <= j <= side,
                n == side,
                base == states,
                len == cell_count(n),
                n * n <= 63,
                states >= 2,
                new_pos < pow(base, len) <= u64::MAX,
                forall|a: int, b: int|
                    0 <= a < n && 0 <= b < n ==> digit(
                        new_pos as int,
                        base,
                        #[trigger] cell(n, a, b),
                    ) == digit(
                        position as int,
                        base,
                        if a < i || b < i || (a == i && b < j) || (b == i && a < j) {
                            cell(n, b, a)
                        } else {
                            cell(n, a, b)
                        },
                    ),
            decreases side - j,
        {
            proof {
                lemma_cell_coords(n, i as int, j as int);
                lemma_cell_coords(n, j as int, i as int);
            }
            let k1 = i * side + j;
            let k2 = j * side + i;
            let ghost before = new_pos;
            assert(k1 == cell(n, i as int, j as int));
            assert(k2 == cell(n, j as int, i as int));
            new_pos = swap_digits(new_pos, states, k1 as u32, k2 as u32, Ghost(len));
            proof {
                assert forall|a: int, b: int| 0 <= a < n && 0 <= b < n implies digit(
                    new_pos as int,
                    base,
                    #[trigger] cell(n, a, b),
                ) == digit(
                    position as int,
                    base,
                    if a < i || b < i || (a == i && b < j + 1) || (b == i && a < j + 1) {
                        cell(n, b, a)
                    } else {
                        cell(n, a, b)
                    },
                ) by {
                    lemma_cell_coords(n, a, b);
                    lemma_cell_coords(n, b, a);
                    assert(digit(before as int, base, cell(n, b, a)) == digit(
                        position as int,
                        base,
                        if b < i || a < i || (b == i && a < j) || (a == i && b < j) {
                            cell(n, a, b)
                        } else {
                            cell(n, b, a)
                        },
                    ));
                }
            }
            j = j + 1;
        }
        i = i + 1;
    }
    proof {
        let g = Symmetry::transposition();
        assert forall|k: int| 0 <= k < len implies #[trigger] digit(new_pos as int, base, k)
            == digit(position as int, base, g.source_cell(n, k)) by {
            lemma_cell_split(n, k);
            assert(k == cell(n, k / n, k % n));
        }
        lemma_apply_unique(g, position as int, new_pos as int, base, n);
    }
    new_pos
}

/// The neighbourhood number with the order of the rows reversed: the state at
/// `(i, j)` becomes the state at `(side - 1 - i, j)`.
pub fn reverse_rows_position(position: u64, states: u8, side: usize) -> (r: u64)
    requires
        is_position(position as int, states as int, side as int),
        pow(states as int, cell_count(side as int)) <= u64::MAX,
    ensures
        r == Symmetry::row_reversal().apply(position as int, states as int, side as int),
{
    if states < 2 {
        proof {
            lemma_single_state(Symmetry::row_reversal(), position as int, side as int);
        }
        return position;
    }
    let ghost n = side as int;
    let ghost base = states as int;
    let ghost len = cell_count(n);
    proof {
        lemma_side_small(base, n);
    }
    let half = side / 2;
    let mut new_pos = position;
    let mut i: usize = 0;
    while i < half
        invariant
            i <= half,
            half == side / 2,
            side <= 7,
            n == side,
            base == states,
            len == cell_count(n),
            n * n <= 63,
            states >= 2,
            new_pos < pow(base, len) <= u64::MAX,
            forall|a: int, b: int|
                0 <= a < n && 0 <= b < n ==> digit(new_pos as int, base, #[trigger] cell(n, a, b))
                    == digit(
                    position as int,
                    base,
                    if a < i || n - 1 - a < i {
                        cell(n, n - 1 - a, b)
                    } else {
                        cell(n, a, b)
                    },
                ),
        decreases half - i,
    {
        let mut j: usize = 0;
        while j < side
            invariant
                i < half,
                half == side / 2,
                j <= side <= 7,
                n == side,
                base == states,
                len == cell_count(n),
                n * n <= 63,
                states >= 2,
                new_pos < pow(base, len) <= u64::MAX,
                forall|a: int, b: int|
                    0 <= a < n && 0 <= b < n ==> digit(
                        new_pos as int,
                        base,
                        #[trigger] cell(n, a, b),
                    ) == digit(
                        position as int,
                        base,
                        if a < i || n - 1 - a < i || ((a == i || n - 1 - a == i) && b < j) {
                            cell(n, n - 1 - a, b)
                        } else {
                            cell(n, a, b)
                        },
                    ),
            decreases side - j,
        {
            proof {
                lemma_cell_coords(n, i as int, j as int);
                lemma_cell_coords(n, n - 1 - i, j as int);
            }
            let k1 = i * side + j;
            let k2 = (side - 1 - i) * side + j;
            let ghost before = new_pos;
            assert(k1 == cell(n, i as int, j as int));
            assert(k2 == cell(n, n - 1 - i, j as int));
            new_pos = swap_digits(new_pos, states, k1 as u32, k2 as u32, Ghost(len));
            proof {
                assert forall|a: int, b: int| 0 <= a < n && 0 <= b < n implies digit(
                    new_pos as int,
                    base,
                    #[trigger] cell(n, a, b),
                ) == digit(
                    position as int,
                    base,
                    if a < i || n - 1 - a < i || ((a == i || n - 1 - a == i) && b < j + 1) {
                        cell(n, n - 1 - a, b)
                    } else {
                        cell(n, a, b)
                    },
                ) by {
                    lemma_cell_coords(n, a, b);
                    lemma_cell_coords(n, n - 1 - a, b);
                    assert(digit(before as int, base, cell(n, n - 1 - a, b)) == digit(
                        position as int,
                        base,
                        if n - 1 - a < i || a < i || ((n - 1 - a == i || a == i) && b < j) {
                            cell(n, a, b)
                        } else {
                            cell(n, n - 1 - a, b)
                        },
                    ));
                }
            }
            j = j + 1;
        }
        i = i + 1;
    }
    proof {
        let g = Symmetry::row_reversal();
        assert forall|k: int| 0 <= k < len implies #[trigger] digit(new_pos as int, base, k)
            == digit(position as int, base, g.source_cell(n, k)) by {
            lemma_cell_split(n, k);
            assert(k == cell(n, k / n, k % n));
        }
        lemma_apply_unique(g, position as int, new_pos as int, base, n);
    }
    new_pos
}

/// The neighbourhood number with the order of the columns reversed: the state
/// at `(i, j)` becomes the state at `(i, side - 1 - j)`.
pub fn reverse_cols_position(position: u64, states: u8, side: usize) -> (r: u64)
    requires
        is_position(position as int, states as int, side as int),
        pow(states as int, cell_count(side as int)) <= u64::MAX,
    ensures
        r == Symmetry::col_reversal().apply(position as int, states as int, side as int),
{
    if states < 2 {
        proof {
            lemma_single_state(Symmetry::col_reversal(), position as int, side as int);
        }
        return position;
    }
    let ghost n = side as int;
    let ghost base = states as int;
    let ghost len = cell_count(n);
    proof {
        lemma_side_small(base, n);
    }
    let half = side / 2;
    let mut new_pos = position;
    let mut i: usize = 0;
    while i < side
        invariant
            i <= side <= 7,
            half == side / 2,
            n == side,
            base == states,
            len == cell_count(n),
            n * n <= 63,
            states >= 2,
            new_pos < pow(base, len) <= u64::MAX,
            forall|a: int, b: int|
                0 <= a < n && 0 <= b < n ==> digit(new_pos as int, base, #[trigger] cell(n, a, b))
                    == digit(
                    position as int,
                    base,
                    if a < i {
                        cell(n, a, n - 1 - b)
                    } else {
                        cell(n, a, b)
                    },
                ),
        decreases side - i,
    {
        let mut j: usize = 0;
        while j < half
            invariant
                i < side <= 7,
                j <= half,
                half == side / 2,
                n == side,
                base == states,
                len == cell_count(n),
                n * n <= 63,
                states >= 2,
                new_pos < pow(base, len) <= u64::MAX,
                forall|a: int, b: int|
                    0 <= a < n && 0 <= b < n ==> digit(
                        new_pos as int,
                        base,
                        #[trigger] cell(n, a, b),
                    ) == digit(
                        position as int,
                        base,
                        if a < i || (a == i && (b < j || n - 1 - b < j)) {
                            cell(n, a, n - 1 - b)
                        } else {
                            cell(n, a, b)
                        },
                    ),
            decreases half - j,
        {
            proof {
                lemma_cell_coords(n, i as int, j as int);
                lemma_cell_coords(n, i as int, n - 1 - j);
            }
            let k1 = i * side + j;
            let k2 = i * side + (side - 1 - j);
            let ghost before = new_pos;
            assert(k1 == cell(n, i as int, j as int));
            assert(k2 == cell(n, i as int, n - 1 - j));
            new_pos = swap_digits(new_pos, states, k1 as u32, k2 as u32, Ghost(len));
            proof {
                assert forall|a: int, b: int| 0 <= a < n && 0 <= b < n implies digit(
                    new_pos as int,
                    base,
                    #[trigger] cell(n, a, b),
                ) == digit(
                    position as int,
                    base,
                    if a < i || (a == i && (b < j + 1 || n - 1 - b < j + 1)) {
                        cell(n, a, n - 1 - b)
                    } else {
                        cell(n, a, b)
                    },
                ) by {
                    lemma_cell_coords(n, a, b);
                    lemma_cell_coords(n, a, n - 1 - b);
                    assert(digit(before as int, base, cell(n, a, n - 1 - b)) == digit(
                        position as int,
                        base,
                        if a < i || (a == i && (n - 1 - b < j || b < j)) {
                            cell(n, a, b)
                        } else {
                            cell(n, a, n - 1 - b)
                        },
                    ));
                }
            }
            j = j + 1;
        }
        i = i + 1;
    }
    proof {
        let g = Symmetry::col_reversal();
        assert forall|k: int| 0 <= k < len implies #[trigger] digit(new_pos as int, base, k)
            == digit(position as int, base, g.source_cell(n, k)) by {
            lemma_cell_split(n, k);
            assert(k == cell(n, k / n, k % n));
        }
        lemma_apply_unique(g, position as int, new_pos as int, base, n);
    }
    new_pos
}

} // verus!
