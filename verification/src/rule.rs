//! Rule tables: the transition function of a cellular automaton, one entry
//! for every state of a square neighbourhood.
use crate::codec::{
    decoding, gzip_compress, gzip_decompress, gzip_encoding, is_gzip, zlib_decompress,
};
use crate::digits::{checked_pow_u64, digit, lemma_exponent_below_64, lemma_pow_step};
use crate::powers::lemma_powers_differ;
use crate::sampling::random_state;
use crate::symmetry::{
    cell_count, is_position, lemma_apply, lemma_apply_after, lemma_apply_identity,
    lemma_apply_inverse, lemma_orbit_min, lemma_orbit_min_idempotent, lemma_orbit_min_of_image,
    orbit_min, reverse_cols_position, reverse_rows_position, transpose_position, Symmetry,
};
use vstd::arithmetic::power::*;
use vstd::arithmetic::power2::{lemma2_to64, lemma_pow2};
use vstd::prelude::*;

verus! {

/// How the entries of a random rule table are drawn.
#[derive(Debug, Clone, Copy, PartialEq, Eq, Structural)]
pub enum SamplingMode {
    /// Every entry uniformly among the states.
    Uniform,
    /// Every entry by weights that are themselves drawn from a Dirichlet
    /// distribution.
    Dirichlet,
}

/// Whether two texts hold the same characters.
fn same_text(a: &str, b: &str) -> (same: bool)
    ensures
        same == (a@ == b@),
{
    let n = a.unicode_len();
    if n != b.unicode_len() {
        return false;
    }
    let mut i: usize = 0;
    while i < n
        invariant
            i <= n,
            n == a@.len(),
            n == b@.len(),
            forall|k: int| 0 <= k < i ==> a@[k] == b@[k],
        decreases n - i,
    {
        if a.get_char(i) != b.get_char(i) {
            return false;
        }
        i = i + 1;
    }
    assert(a@ =~= b@);
    true
}

impl SamplingMode {
    /// Reads a sampling mode from its name: `uniform` or `dirichlet`. Any
    /// other text is refused with the message `no match`.
    pub fn from_str(s: &str) -> (mode: Result<SamplingMode, &'static str>)
        ensures
            s@ == "uniform"@ ==> mode == Ok::<SamplingMode, &'static str>(SamplingMode::Uniform),
            s@ == "dirichlet"@ ==> mode == Ok::<SamplingMode, &'static str>(
                SamplingMode::Dirichlet,
            ),
            s@ != "uniform"@ && s@ != "dirichlet"@ ==> mode == Err::<SamplingMode, &'static str>(
                "no match",
            ),
    {
        proof {
            reveal_strlit("uniform");
            reveal_strlit("dirichlet");
            assert("uniform"@.len() == 7);
            assert("dirichlet"@.len() == 9);
        }
        if same_text(s, "uniform") {
            Ok(SamplingMode::Uniform)
        } else if same_text(s, "dirichlet") {
            Ok(SamplingMode::Dirichlet)
        } else {
            Err("no match")
        }
    }
}

/// What can be wrong with a rule table or with the bytes of a rule file.
#[derive(Debug)]
pub enum RuleError {
    /// The table does not have one entry for each state of the neighbourhood.
    RuleSizeMismatch,
    /// A byte of the decoded stream does not stand for a table entry.
    RuleFormatError,
    /// The codec could not write the stream or could not read it.
    RuleFileError(std::io::Error),
}

/// The side of the square neighbourhood of radius `horizon`.
pub open spec fn side_of(horizon: int) -> int {
    2 * horizon + 1
}

/// The number of entries of a rule table: one for each assignment of one of
/// `states` states to each cell of the neighbourhood.
pub open spec fn rule_size(horizon: int, states: int) -> int {
    pow(states, cell_count(side_of(horizon)))
}

/// A rule as a mathematical value.
pub struct RuleView {
    /// The radius of the neighbourhood.
    pub horizon: i8,
    /// The number of states of a cell.
    pub states: u8,
    /// The next state for every neighbourhood number.
    pub table: Seq<u8>,
}

impl RuleView {
    /// The table has one entry for each state of the neighbourhood.
    pub open spec fn size_matches(self) -> bool {
        self.horizon >= 0 && self.table.len() == rule_size(self.horizon as int, self.states as int)
    }

    /// The size matches and every entry is one of the states.
    pub open spec fn wf(self) -> bool {
        &&& self.size_matches()
        &&& forall|i: int| 0 <= i < self.table.len() ==> #[trigger] self.table[i] < self.states
    }
}

/// A cellular automaton rule: the next state of a cell for every state of its
/// neighbourhood. Entry `i` belongs to the neighbourhood whose number is `i`.
#[derive(Debug)]
pub struct Rule {
    horizon: i8,
    states: u8,
    table: Vec<u8>,
}

impl View for Rule {
    type V = RuleView;

    closed spec fn view(&self) -> RuleView {
        RuleView { horizon: self.horizon, states: self.states, table: self.table@ }
    }
}

impl Clone for Rule {
    fn clone(&self) -> (copy: Rule)
        ensures
            copy@ == self@,
    {
        Rule { horizon: self.horizon, states: self.states, table: self.table.clone() }
    }
}

impl vstd::std_specs::core::IndexSpecImpl<usize> for Rule {
    open spec fn index_req(&self, index: &usize) -> bool {
        *index < self@.table.len()
    }
}

impl std::ops::Index<usize> for Rule {
    type Output = u8;

    /// The entry for the neighbourhood number `idx`.
    fn index(&self, idx: usize) -> (state: &u8)
        ensures
            *state == self@.table[idx as int],
    {
        &self.table[idx]
    }
}

/// The number of live cells among the first `count` cells of the binary
/// neighbourhood `idx`, the centre (cell 4) left out.
pub open spec fn live_among(idx: int, count: nat) -> int
    decreases count,
{
    if count == 0 {
        0
    } else {
        live_among(idx, (count - 1) as nat) + if count - 1 == 4 {
            0
        } else {
            digit(idx, 2, count - 1)
        }
    }
}

/// Conway's Game of Life on the 3 by 3 neighbourhood `idx`: a cell is alive
/// next if it has three live neighbours, or two and is alive now.
pub open spec fn life_next(idx: int) -> u8 {
    let neighbours = live_among(idx, 9);
    if neighbours == 3 || (neighbours == 2 && digit(idx, 2, 4) == 1) {
        1
    } else {
        0
    }
}

/// The table that gives every neighbourhood the entry that `table` has for
/// the representative of its class under the symmetries of the square.
pub open spec fn symmetrized(table: Seq<u8>, states: int, side: int) -> Seq<u8> {
    Seq::new(table.len(), |x: int| table[orbit_min(x, states, side)])
}

/// The table gives every neighbourhood and each of its eight images the same
/// entry.
pub open spec fn is_symmetric(table: Seq<u8>, states: int, side: int) -> bool {
    forall|g: Symmetry, x: int|
        0 <= x < table.len() ==> table[#[trigger] g.apply(x, states, side)] == table[x]
}

/// `x` is one of the eight images of `p`.
pub open spec fn is_image(x: int, p: int, states: int, side: int) -> bool {
    exists|i: int| 0 <= i < 8 && x == #[trigger] Symmetry::nth(i).apply(p, states, side)
}

/// What holds while a table is being made symmetric, when the neighbourhoods
/// below `position` have been dealt with: the classes are marked as wholes,
/// a marked neighbourhood has the entry of its representative, an unmarked
/// one has its own, and everything below `position` is marked.
pub open spec fn symmetrize_progress(
    initial: Seq<u8>,
    table: Seq<u8>,
    done: Seq<bool>,
    position: int,
    states: int,
    side: int,
) -> bool {
    &&& table.len() == initial.len()
    &&& done.len() == initial.len()
    &&& forall|x: int, g: Symmetry|
        0 <= x < done.len() && done[x] ==> 0 <= #[trigger] g.apply(x, states, side) < done.len()
            && done[g.apply(x, states, side)]
    &&& forall|x: int|
        0 <= x < done.len() ==> #[trigger] table[x] == initial[if done[x] {
            orbit_min(x, states, side)
        } else {
            x
        }]
    &&& forall|x: int| 0 <= x < position && x < done.len() ==> #[trigger] done[x]
}

/// Every image of `p` under a symmetry is one of the eight.
proof fn lemma_is_image(g: Symmetry, p: int, states: int, side: int)
    ensures
        is_image(g.apply(p, states, side), p, states, side),
{
    assert(g == Symmetry::nth(g.index()));
    assert(g.apply(p, states, side) == Symmetry::nth(g.index()).apply(p, states, side));
}

/// Marking the class of an unmarked neighbourhood `p`, and giving the whole
/// class the entry of `p`, is one step of progress.
proof fn lemma_symmetrize_step(
    initial: Seq<u8>,
    table: Seq<u8>,
    done: Seq<bool>,
    table2: Seq<u8>,
    done2: Seq<bool>,
    p: int,
    states: int,
    side: int,
)
    requires
        states >= 1,
        side >= 0,
        initial.len() == pow(states, cell_count(side)),
        symmetrize_progress(initial, table, done, p, states, side),
        0 <= p < done.len(),
        !done[p],
        table2.len() == table.len(),
        done2.len() == done.len(),
        forall|x: int|
            0 <= x < done.len() ==> #[trigger] done2[x] == (done[x] || is_image(
                x,
                p,
                states,
                side,
            )),
        forall|x: int|
            0 <= x < table.len() ==> #[trigger] table2[x] == if is_image(x, p, states, side) {
                table[p]
            } else {
                table[x]
            },
    ensures
        symmetrize_progress(initial, table2, done2, p + 1, states, side),
{
    assert(is_position(p, states, side));
    lemma_orbit_min(p, states, side);
    // No image of `p` is marked, since `p` is an image of each of them.
    assert forall|g: Symmetry| !done[#[trigger] g.apply(p, states, side)] by {
        lemma_apply(g, p, states, side);
        lemma_apply_inverse(g, p, states, side);
        let y = g.apply(p, states, side);
        if done[y] {
            assert(done[g.inverse().apply(y, states, side)]);
        }
    }
    // So all of them lie at `p` or above, and `p` represents its class.
    assert(orbit_min(p, states, side) == p);
    assert forall|x: int, g: Symmetry| 0 <= x < done2.len() && done2[x] implies 0
        <= #[trigger] g.apply(x, states, side) < done2.len() && done2[g.apply(
        x,
        states,
        side,
    )] by {
        lemma_apply(g, x, states, side);
        if !done[x] {
            let i = choose|i: int|
                0 <= i < 8 && x == #[trigger] Symmetry::nth(i).apply(p, states, side);
            lemma_apply_after(g, Symmetry::nth(i), p, states, side);
            lemma_is_image(g.after(Symmetry::nth(i)), p, states, side);
        }
    }
    assert forall|x: int| 0 <= x < done2.len() implies #[trigger] table2[x] == initial[if done2[x] {
        orbit_min(x, states, side)
    } else {
        x
    }] by {
        if is_image(x, p, states, side) {
            let i = choose|i: int|
                0 <= i < 8 && x == #[trigger] Symmetry::nth(i).apply(p, states, side);
            lemma_orbit_min_of_image(Symmetry::nth(i), p, states, side);
        }
    }
    assert(done2[p]) by {
        lemma_apply_identity(p, states, side);
        lemma_is_image(Symmetry::identity(), p, states, side);
    }
}

/// The eight numbers that `symmetrize` computes from `p` are the eight
/// images of `p`, and they are neighbourhood numbers.
proof fn lemma_eight_images(
    p: int,
    states: int,
    side: int,
    tr: int,
    rr: int,
    rc: int,
    r90: int,
    r270: int,
    r180: int,
    atr: int,
)
    requires
        is_position(p, states, side),
        tr == Symmetry::transposition().apply(p, states, side),
        rr == Symmetry::row_reversal().apply(p, states, side),
        rc == Symmetry::col_reversal().apply(p, states, side),
        r90 == Symmetry::row_reversal().apply(tr, states, side),
        r270 == Symmetry::col_reversal().apply(tr, states, side),
        r180 == Symmetry::col_reversal().apply(rr, states, side),
        atr == Symmetry::transposition().apply(r180, states, side),
    ensures
        is_position(tr, states, side),
        is_position(rr, states, side),
        is_position(rc, states, side),
        is_position(r90, states, side),
        is_position(r270, states, side),
        is_position(r180, states, side),
        is_position(atr, states, side),
        forall|x: int|
            is_image(x, p, states, side) <==> (x == p || x == tr || x == rr || x == r270 || x == rc
                || x == r90 || x == r180 || x == atr),
{
    let t = Symmetry::transposition();
    let rows = Symmetry::row_reversal();
    let cols = Symmetry::col_reversal();
    lemma_apply(t, p, states, side);
    lemma_apply(rows, p, states, side);
    lemma_apply(cols, p, states, side);
    lemma_apply(rows, tr, states, side);
    lemma_apply(cols, tr, states, side);
    lemma_apply(cols, rr, states, side);
    lemma_apply(t, r180, states, side);
    lemma_apply_identity(p, states, side);
    lemma_apply_after(rows, t, p, states, side);
    lemma_apply_after(cols, t, p, states, side);
    lemma_apply_after(cols, rows, p, states, side);
    lemma_apply_after(t, cols.after(rows), p, states, side);
    assert(Symmetry::identity() == Symmetry::nth(0));
    assert(t == Symmetry::nth(1));
    assert(rows == Symmetry::nth(2));
    assert(cols.after(t) == Symmetry::nth(3));
    assert(cols == Symmetry::nth(4));
    assert(rows.after(t) == Symmetry::nth(5));
    assert(cols.after(rows) == Symmetry::nth(6));
    assert(t.after(cols.after(rows)) == Symmetry::nth(7));
    assert(p == Symmetry::nth(0).apply(p, states, side));
    assert(tr == Symmetry::nth(1).apply(p, states, side));
    assert(rr == Symmetry::nth(2).apply(p, states, side));
    assert(r270 == Symmetry::nth(3).apply(p, states, side));
    assert(rc == Symmetry::nth(4).apply(p, states, side));
    assert(r90 == Symmetry::nth(5).apply(p, states, side));
    assert(r180 == Symmetry::nth(6).apply(p, states, side));
    assert(atr == Symmetry::nth(7).apply(p, states, side));
    assert forall|x: int|
        is_image(x, p, states, side) <==> (x == p || x == tr || x == rr || x == r270 || x == rc || x
            == r90 || x == r180 || x == atr) by {
        if is_image(x, p, states, side) {
            let i = choose|i: int|
                0 <= i < 8 && x == #[trigger] Symmetry::nth(i).apply(p, states, side);
            assert(i == 0 || i == 1 || i == 2 || i == 3 || i == 4 || i == 5 || i == 6 || i == 7);
        }
    }
}

/// Making a table symmetric twice gives what making it symmetric once gives.
pub proof fn symmetrize_is_idempotent(table: Seq<u8>, states: int, side: int)
    requires
        states >= 1,
        side >= 0,
        table.len() == pow(states, cell_count(side)),
    ensures
        symmetrized(symmetrized(table, states, side), states, side) == symmetrized(
            table,
            states,
            side,
        ),
{
    let once = symmetrized(table, states, side);
    let twice = symmetrized(once, states, side);
    assert forall|x: int| 0 <= x < table.len() implies twice[x] == once[x] by {
        lemma_orbit_min(x, states, side);
        lemma_orbit_min_idempotent(x, states, side);
    }
    assert(twice =~= once);
}

/// A table that is symmetric already is left as it is.
pub proof fn symmetrize_keeps_symmetric(table: Seq<u8>, states: int, side: int)
    requires
        states >= 1,
        side >= 0,
        table.len() == pow(states, cell_count(side)),
        is_symmetric(table, states, side),
    ensures
        symmetrized(table, states, side) == table,
{
    let once = symmetrized(table, states, side);
    assert forall|x: int| 0 <= x < table.len() implies once[x] == table[x] by {
        lemma_orbit_min(x, states, side);
        let g = choose|g: Symmetry|
            orbit_min(x, states, side) == #[trigger] g.apply(x, states, side);
        assert(table[g.apply(x, states, side)] == table[x]);
    }
    assert(once =~= table);
}

/// A table that has been made symmetric is symmetric.
pub proof fn symmetrized_is_symmetric(table: Seq<u8>, states: int, side: int)
    requires
        states >= 1,
        side >= 0,
        table.len() == pow(states, cell_count(side)),
    ensures
        is_symmetric(symmetrized(table, states, side), states, side),
{
    let once = symmetrized(table, states, side);
    assert forall|g: Symmetry, x: int| 0 <= x < once.len() implies once[#[trigger] g.apply(
        x,
        states,
        side,
    )] == once[x] by {
        lemma_apply(g, x, states, side);
        lemma_orbit_min_of_image(g, x, states, side);
    }
}

/// The bytes that stand for the entries of a table in a rule file: for each
/// entry the character `0` and as many steps above it as the entry says.
pub open spec fn ascii_digits(table: Seq<u8>) -> Seq<u8> {
    Seq::new(table.len(), |i: int| (table[i] + 48) as u8)
}

/// Every entry of the table has a byte to stand for it.
pub open spec fn renderable(table: Seq<u8>) -> bool {
    forall|i: int| 0 <= i < table.len() ==> #[trigger] table[i] <= 207
}

/// Every byte stands for a table entry: none lies below the character `0`.
pub open spec fn all_digits(digits: Seq<u8>) -> bool {
    forall|i: int| 0 <= i < digits.len() ==> #[trigger] digits[i] >= 48
}

/// The entries that the bytes stand for.
pub open spec fn entries_of(digits: Seq<u8>) -> Seq<u8> {
    Seq::new(digits.len(), |i: int| (digits[i] - 48) as u8)
}

/// `len` entries make a table for `states` states and a neighbourhood of
/// side `m`.
pub open spec fn fits(len: int, states: int, m: int) -> bool {
    m >= 0 && len == pow(states, cell_count(m))
}

/// `len` entries make a table for `states` states and some neighbourhood.
pub open spec fn has_side(len: int, states: int) -> bool {
    exists|m: int| fits(len, states, m)
}

/// The side of the neighbourhood of a table of `len` entries for `states`
/// states.
pub open spec fn side_for(len: int, states: int) -> int {
    choose|m: int| fits(len, states, m)
}

/// The least number of states from `from` up to 29 for which `len` entries
/// make a table.
pub open spec fn first_fit(len: int, from: int) -> Option<int>
    decreases 30 - from,
{
    if from >= 30 {
        None
    } else if has_side(len, from) {
        Some(from)
    } else {
        first_fit(len, from + 1)
    }
}

/// The number of states that a rule file of `len` entries is read with: the
/// least of 2 to 29 for which the length is that of a table. A file does not
/// say how many states it is for, and some lengths are those of tables for
/// several numbers of states.
pub open spec fn inferred_states(len: int) -> Option<int> {
    first_fit(len, 2)
}

/// The rule that the decoded bytes of a rule file stand for, where they
/// stand for one: the bytes are entries, their number is that of a table for
/// the inferred number of states, and the side of its neighbourhood is odd.
pub open spec fn rule_of_digits(digits: Seq<u8>) -> Option<RuleView> {
    match inferred_states(digits.len() as int) {
        Some(states) => {
            let m = side_for(digits.len() as int, states);
            if all_digits(digits) && m % 2 == 1 {
                Some(
                    RuleView {
                        horizon: ((m - 1) / 2) as i8,
                        states: states as u8,
                        table: entries_of(digits),
                    },
                )
            } else {
                None
            }
        },
        None => None,
    }
}

/// The rule that the bytes of a rule file stand for, where they stand for one.
pub open spec fn read_back(bytes: Seq<u8>) -> Option<RuleView> {
    match decoding(bytes) {
        Some(digits) => rule_of_digits(digits),
        None => None,
    }
}

/// With two states or more, a larger neighbourhood has a larger table.
proof fn lemma_fit_grows(states: int, m1: int, m2: int)
    requires
        states >= 2,
        0 <= m1 < m2,
    ensures
        pow(states, cell_count(m1)) < pow(states, cell_count(m2)),
{
    assert(m1 * m1 < m2 * m2) by (nonlinear_arith)
        requires
            0 <= m1 < m2,
    ;
    lemma_pow_strictly_increases(states as nat, cell_count(m1), cell_count(m2));
}

/// With two states or more, the size of a table tells the side of the
/// neighbourhood.
proof fn lemma_side_for(len: int, states: int, m: int)
    requires
        states >= 2,
        fits(len, states, m),
    ensures
        has_side(len, states),
        side_for(len, states) == m,
{
    let other = side_for(len, states);
    if other < m {
        lemma_fit_grows(states, other, m);
    } else if m < other {
        lemma_fit_grows(states, m, other);
    }
}

/// Rendering the table of a rule as bytes and reading the bytes gives the
/// rule back: its radius, its number of states and its table. This holds of
/// a rule whose number of states is the one that its length is read with.
pub proof fn digits_round_trip(rule: RuleView)
    requires
        rule.size_matches(),
        renderable(rule.table),
        inferred_states(rule.table.len() as int) == Some(rule.states as int),
    ensures
        rule_of_digits(ascii_digits(rule.table)) == Some(rule),
{
    let digits = ascii_digits(rule.table);
    let len = rule.table.len() as int;
    lemma_first_fit_range(len, 2);
    lemma_side_for(len, rule.states as int, side_of(rule.horizon as int));
    assert(entries_of(digits) =~= rule.table);
}

/// The numbers of states that the length of a table tells: those from 2 to
/// 29, but 16. No smaller number of states has a table of the same length;
/// a table for 16 states has the length of one for 2 states and a
/// neighbourhood of twice the side.
pub open spec fn told_by_length(states: int) -> bool {
    2 <= states < 30 && states != 16
}

/// The first number of states from `from` on for which `len` entries make a
/// table is `states`, where they make one for `states` and for none between.
proof fn lemma_first_fit_is(len: int, from: int, states: int)
    requires
        from <= states < 30,
        has_side(len, states),
        forall|other: int| from <= other < states ==> !#[trigger] has_side(len, other),
    ensures
        first_fit(len, from) == Some(states),
    decreases states - from,
{
    if from < states {
        assert(!has_side(len, from));
        lemma_first_fit_is(len, from + 1, states);
    }
}

/// The table of a rule is read with the rule's own number of states where
/// the length tells that number, and nowhere else.
pub proof fn states_read_from_length(rule: RuleView)
    requires
        rule.size_matches(),
    ensures
        inferred_states(rule.table.len() as int) == Some(rule.states as int) <==> told_by_length(
            rule.states as int,
        ),
{
    let len = rule.table.len() as int;
    let states = rule.states as int;
    let m = side_of(rule.horizon as int);
    assert(fits(len, states, m));
    if told_by_length(states) {
        assert forall|other: int| 2 <= other < states implies !#[trigger] has_side(len, other) by {
            assert forall|k: int| !fits(len, other, k) by {
                if k >= 0 {
                    lemma_powers_differ(states, other, m, k);
                }
            }
        }
        lemma_first_fit_is(len, 2, states);
    } else if states == 16 {
        // Sixteen is two to the fourth, and four times a square is a square.
        lemma_pow_step(2, 0);
        lemma_pow_step(2, 1);
        lemma_pow_step(2, 2);
        lemma_pow_step(2, 3);
        lemma_pow0(2);
        lemma_pow_multiplies(2, 4, cell_count(m));
        assert(4 * (m * m) == (2 * m) * (2 * m)) by (nonlinear_arith);
        assert(fits(len, 2, 2 * m));
    } else {
        lemma_first_fit_range(len, 2);
    }
}

/// The round trip of rule files: the table of a well-formed rule, rendered
/// as bytes and read again, gives the rule back, with its radius, its number
/// of states and its table, where the length tells the number of states.
pub proof fn round_trip(rule: RuleView)
    requires
        rule.wf(),
        told_by_length(rule.states as int),
    ensures
        rule_of_digits(ascii_digits(rule.table)) == Some(rule),
{
    states_read_from_length(rule);
    assert forall|i: int| 0 <= i < rule.table.len() implies #[trigger] rule.table[i] <= 207 by {
        assert(rule.table[i] < rule.states);
    }
    digits_round_trip(rule);
}

/// What `first_fit` finds lies between `from` and 29 and is a number of
/// states for which `len` entries make a table.
proof fn lemma_first_fit_range(len: int, from: int)
    ensures
        first_fit(len, from) matches Some(states) ==> from <= states < 30 && has_side(len, states),
    decreases 30 - from,
{
    if from < 30 && !has_side(len, from) {
        lemma_first_fit_range(len, from + 1);
    }
}

/// The side `m` of the neighbourhood for which `len` entries make a table
/// for `states` states, or `None` where there is none.
fn side_of_size(len: u64, states: u8) -> (side: Option<u32>)
    requires
        states >= 2,
    ensures
        match side {
            Some(m) => fits(len as int, states as int, m as int),
            None => !has_side(len as int, states as int),
        },
{
    let mut m: u32 = 0;
    loop
        invariant
            states >= 2,
            m <= 8,
            forall|k: int| 0 <= k < m ==> pow(states as int, #[trigger] cell_count(k)) < len,
        decreases 8 - m,
    {
        assert(m * m <= 64) by (nonlinear_arith)
            requires
                m <= 8,
        ;
        let found = checked_pow_u64(states as u64, m * m);
        let too_large = match found {
            Some(size) => {
                if size == len {
                    return Some(m);
                }
                size > len
            },
            None => true,
        };
        if too_large {
            proof {
                assert forall|k: int| !fits(len as int, states as int, k) by {
                    if k > m {
                        lemma_fit_grows(states as int, m as int, k);
                    }
                    if 0 <= k < m {
                        assert(pow(states as int, cell_count(k)) < len);
                    }
                }
            }
            return None;
        }
        proof {
            lemma_exponent_below_64(states as int, cell_count(m as int));
            assert(m < 8) by (nonlinear_arith)
                requires
                    m * m < 64,
            ;
        }
        m = m + 1;
    }
}

/// The number of states that a table of `len` entries is read with, and the
/// side of its neighbourhood.
fn infer_shape(len: u64) -> (shape: Option<(u8, u32)>)
    ensures
        match shape {
            Some((states, m)) => inferred_states(len as int) == Some(states as int) && m
                == side_for(len as int, states as int) && fits(len as int, states as int, m as int),
            None => inferred_states(len as int).is_none(),
        },
{
    let mut states: u8 = 2;
    while states < 30
        invariant
            2 <= states <= 30,
            first_fit(len as int, 2) == first_fit(len as int, states as int),
        decreases 30 - states,
    {
        match side_of_size(len, states) {
            Some(m) => {
                proof {
                    lemma_side_for(len as int, states as int, m as int);
                }
                return Some((states, m));
            },
            None => {},
        }
        states = states + 1;
    }
    None
}

/// The table of Conway's Game of Life.
pub open spec fn life_table() -> Seq<u8> {
    Seq::new(512, |idx: int| life_next(idx))
}

/// The Game of Life gives a neighbourhood and each of its eight images the
/// same entry: a symmetry keeps the centre where it is and moves the eight
/// neighbours among themselves. So making it symmetric leaves it as it is.
pub proof fn life_is_symmetric()
    ensures
        is_symmetric(life_table(), 2, 3),
        symmetrized(life_table(), 2, 3) == life_table(),
{
    let table = life_table();
    lemma_pow2(9);
    lemma2_to64();
    assert(cell_count(3) == 9);
    assert forall|g: Symmetry, x: int| 0 <= x < table.len() implies table[#[trigger] g.apply(
        x,
        2,
        3,
    )] == table[x] by {
        let y = g.apply(x, 2, 3);
        lemma_apply(g, x, 2, 3);
        reveal_with_fuel(live_among, 10);
        assert(digit(y, 2, 0) == digit(x, 2, g.source_cell(3, 0)));
        assert(digit(y, 2, 1) == digit(x, 2, g.source_cell(3, 1)));
        assert(digit(y, 2, 2) == digit(x, 2, g.source_cell(3, 2)));
        assert(digit(y, 2, 3) == digit(x, 2, g.source_cell(3, 3)));
        assert(digit(y, 2, 4) == digit(x, 2, g.source_cell(3, 4)));
        assert(digit(y, 2, 5) == digit(x, 2, g.source_cell(3, 5)));
        assert(digit(y, 2, 6) == digit(x, 2, g.source_cell(3, 6)));
        assert(digit(y, 2, 7) == digit(x, 2, g.source_cell(3, 7)));
        assert(digit(y, 2, 8) == digit(x, 2, g.source_cell(3, 8)));
        assert(g.source_cell(3, 4) == 4);
        assert(live_among(y, 9) == live_among(x, 9));
    }
    symmetrize_keeps_symmetric(table, 2, 3);
}

impl Rule {
    /// The rule is well formed.
    pub open spec fn wf(&self) -> bool {
        self@.wf()
    }

    /// Makes a rule from its radius, its number of states and its table. The
    /// table must have the size that the two ask for.
    pub fn new(horizon: i8, states: u8, table: Vec<u8>) -> (rule: Rule)
        requires
            (RuleView { horizon, states, table: table@ }).size_matches(),
        ensures
            rule@ == (RuleView { horizon, states, table: table@ }),
    {
        Rule { horizon, states, table }
    }

    /// Makes a rule like `new`, and refuses a table of the wrong size.
    pub fn try_new(horizon: i8, states: u8, table: Vec<u8>) -> (res: Result<Rule, RuleError>)
        ensures
            (RuleView { horizon, states, table: table@ }).size_matches() ==> res is Ok,
            res matches Ok(rule) ==> rule@ == (RuleView { horizon, states, table: table@ })
                && rule@.size_matches(),
            res matches Err(e) ==> e is RuleSizeMismatch,
    {
        let rule = Rule { horizon, states, table };
        if rule.check() {
            Ok(rule)
        } else {
            Err(RuleError::RuleSizeMismatch)
        }
    }

    /// The radius of the neighbourhood.
    pub fn horizon(&self) -> (h: i8)
        ensures
            h == self@.horizon,
    {
        self.horizon
    }

    /// The number of states of a cell.
    pub fn states(&self) -> (s: u8)
        ensures
            s == self@.states,
    {
        self.states
    }

    /// The rule table.
    pub fn table(&self) -> (t: &[u8])
        ensures
            t@ == self@.table,
    {
        self.table.as_slice()
    }

    /// The rule table, for writing. Nothing keeps the table at its size or its
    /// entries among the states: `check` and `is_well_formed` tell afterwards.
    pub fn table_mut(&mut self) -> (t: &mut Vec<u8>)
        ensures
            t@ == old(self)@.table,
            final(self)@ == (RuleView { table: final(t)@, ..old(self)@ }),
    {
        &mut self.table
    }

    /// The table of a rule fits in memory.
    pub proof fn lemma_table_fits(&self)
        ensures
            self@.table.len() <= usize::MAX,
    {
        assert(self.table.len() == self.table@.len());
    }

    /// The entry for the neighbourhood number `idx`.
    pub fn get(&self, idx: usize) -> (state: u8)
        requires
            idx < self@.table.len(),
        ensures
            state == self@.table[idx as int],
    {
        self.table[idx]
    }

    /// The number of entries that a table for this radius and this number of
    /// states has, or `None` where it does not fit in 64 bits.
    pub fn rule_size(horizon: i8, states: u8) -> (size: Option<u64>)
        ensures
            match size {
                Some(n) => n == rule_size(horizon as int, states as int),
                None => rule_size(horizon as int, states as int) > u64::MAX,
            },
    {
        let side: i32 = 2 * (horizon as i32) + 1;
        assert(0 <= side * side <= 65536) by (nonlinear_arith)
            requires
                -256 <= side <= 256,
        ;
        let cells: i32 = side * side;
        checked_pow_u64(states as u64, cells as u32)
    }

    /// Whether the table has the size that the radius and the number of states
    /// ask for.
    pub fn check(&self) -> (ok: bool)
        ensures
            ok == self@.size_matches(),
    {
        if self.horizon < 0 {
            return false;
        }
        let len = self.table.len();
        match Rule::rule_size(self.horizon, self.states) {
            Some(n) => len as u64 == n,
            None => false,
        }
    }

    /// Whether the rule is well formed: the size matches and every entry is
    /// one of the states.
    pub fn is_well_formed(&self) -> (ok: bool)
        ensures
            ok == self.wf(),
    {
        if !self.check() {
            return false;
        }
        let mut i: usize = 0;
        while i < self.table.len()
            invariant
                i <= self.table.len(),
                forall|k: int| 0 <= k < i ==> #[trigger] self.table[k] < self.states,
            decreases self.table.len() - i,
        {
            if self.table[i] >= self.states {
                return false;
            }
            i = i + 1;
        }
        true
    }

    /// Conway's Game of Life: two states, radius one.
    pub fn gol() -> (rule: Rule)
        ensures
            rule@.horizon == 1,
            rule@.states == 2,
            rule@.table == life_table(),
            rule.wf(),
    {
        let mut table: Vec<u8> = Vec::new();
        let mut idx: usize = 0;
        while idx < 512
            invariant
                idx <= 512,
                table.len() == idx,
                forall|k: int| 0 <= k < idx ==> #[trigger] table[k] == life_next(k),
            decreases 512 - idx,
        {
            let mut neighbours: u8 = 0;
            let mut centre: usize = 0;
            let mut weight: usize = 1;
            let mut k: usize = 0;
            proof {
                lemma_pow0(2);
            }
            while k < 9
                invariant
                    k <= 9,
                    idx < 512,
                    weight == pow(2, k as nat),
                    0 < weight <= 512,
                    neighbours == live_among(idx as int, k as nat),
                    neighbours <= k,
                    k > 4 ==> centre == digit(idx as int, 2, 4),
                decreases 9 - k,
            {
                let bit = (idx / weight) % 2;
                if k == 4 {
                    centre = bit;
                } else {
                    neighbours = neighbours + bit as u8;
                }
                proof {
                    lemma_pow_step(2, k as nat);
                    lemma_pow2(9);
                    lemma2_to64();
                    if k < 8 {
                        lemma_pow_strictly_increases(2, (k + 1) as nat, 9);
                    }
                    assert(weight * 2 <= 512);
                }
                k = k + 1;
                weight = weight * 2;
            }
            let alive: u8 = if neighbours == 3 || (neighbours == 2 && centre == 1) {
                1
            } else {
                0
            };
            table.push(alive);
            idx = idx + 1;
        }
        proof {
            lemma_pow2(9);
            lemma2_to64();
            assert(side_of(1) == 3);
            assert(cell_count(3) == 9);
            assert(table@ =~= life_table());
        }
        Rule { horizon: 1, states: 2, table }
    }

    /// The rule that is known by `name`. The one name known is `GOL`, for
    /// Conway's Game of Life.
    pub fn well_known(name: &str) -> (rule: Option<Rule>)
        ensures
            match rule {
                Some(r) => name@ == "GOL"@ && r@ == (RuleView {
                    horizon: 1,
                    states: 2,
                    table: life_table(),
                }),
                None => name@ != "GOL"@,
            },
    {
        if same_text(name, "GOL") {
            Some(Rule::gol())
        } else {
            None
        }
    }

    /// A rule whose every entry is drawn uniformly among the states. The
    /// table has its full size whatever is drawn.
    pub fn random(horizon: i8, states: u8) -> (rule: Rule)
        requires
            horizon >= 0,
            rule_size(horizon as int, states as int) <= usize::MAX,
        ensures
            rule@.horizon == horizon,
            rule@.states == states,
            rule@.table.len() == rule_size(horizon as int, states as int),
            rule.wf(),
    {
        let size = match Rule::rule_size(horizon, states) {
            Some(n) => n as usize,
            None => 0,
        };
        let mut rng = rand::thread_rng();
        let mut table: Vec<u8> = Vec::new();
        let mut i: usize = 0;
        while i < size
            invariant
                i <= size,
                horizon >= 0,
                size == rule_size(horizon as int, states as int),
                table.len() == i,
                forall|k: int| 0 <= k < i ==> #[trigger] table[k] < states,
            decreases size - i,
        {
            proof {
                if states == 0 {
                    assert(cell_count(side_of(horizon as int)) > 0) by (nonlinear_arith)
                        requires
                            horizon >= 0,
                    ;
                    lemma0_pow(cell_count(side_of(horizon as int)));
                }
            }
            let state = random_state(&mut rng, states);
            table.push(state);
            i = i + 1;
        }
        Rule::new(horizon, states, table)
    }

    /// Makes the rule symmetric under the eight symmetries of the square:
    /// every neighbourhood gets the entry that the least neighbourhood number
    /// of its class had. The neighbourhoods are taken in order; one that is
    /// not marked yet hands its entry to its seven images and the eight are
    /// marked.
    #[verifier::rlimit(30)]
    pub fn symmetrize(&mut self)
        requires
            old(self)@.size_matches(),
        ensures
            final(self)@ == (RuleView {
                table: symmetrized(
                    old(self)@.table,
                    old(self)@.states as int,
                    side_of(old(self)@.horizon as int),
                ),
                ..old(self)@
            }),
    {
        let states = self.states;
        let size = self.table.len();
        let ghost initial = self.table@;
        let ghost base = states as int;
        let ghost n = side_of(self.horizon as int);
        if size == 0 {
            assert(symmetrized(initial, base, n) =~= initial);
            return;
        }
        proof {
            if states == 0 {
                assert(cell_count(n) > 0) by (nonlinear_arith)
                    requires
                        n >= 1,
                ;
                lemma0_pow(cell_count(n));
            }
        }
        let side = (self.horizon as usize) * 2 + 1;
        let mut book_keep = vec![false; size];
        let mut position: usize = 0;
        while position < size
            invariant
                position <= size,
                size == initial.len(),
                size == pow(base, cell_count(n)),
                base == states,
                states >= 1,
                n == side,
                self.states == states,
                self.horizon == old(self).horizon,
                symmetrize_progress(initial, self.table@, book_keep@, position as int, base, n),
            decreases size - position,
        {
            if !book_keep[position] {
                let ghost table = self.table@;
                let ghost done = book_keep@;
                let ghost p = position as int;
                let here = position as u64;
                let tr = transpose_position(here, states, side);
                let rr = reverse_rows_position(here, states, side);
                let rc = reverse_cols_position(here, states, side);
                proof {
                    lemma_apply(Symmetry::transposition(), p, base, n);
                    lemma_apply(Symmetry::row_reversal(), p, base, n);
                }
                let r90 = reverse_rows_position(tr, states, side);
                let r270 = reverse_cols_position(tr, states, side);
                let r180 = reverse_cols_position(rr, states, side);
                proof {
                    lemma_apply(Symmetry::col_reversal(), rr as int, base, n);
                }
                let atr = transpose_position(r180, states, side);
                proof {
                    lemma_eight_images(
                        p,
                        base,
                        n,
                        tr as int,
                        rr as int,
                        rc as int,
                        r90 as int,
                        r270 as int,
                        r180 as int,
                        atr as int,
                    );
                }
                let position_90 = r90 as usize;
                let position_270 = r270 as usize;
                let position_180 = r180 as usize;
                let position_reverse_r = rr as usize;
                let position_reverse_c = rc as usize;
                let position_tr = tr as usize;
                let position_atr = atr as usize;

                book_keep[position] = true;
                book_keep[position_180] = true;
                book_keep[position_90] = true;
                book_keep[position_270] = true;
                book_keep[position_reverse_c] = true;
                book_keep[position_reverse_r] = true;
                book_keep[position_tr] = true;
                book_keep[position_atr] = true;

                let value = self.table[position];
                self.table[position_180] = value;
                self.table[position_90] = value;
                self.table[position_270] = value;
                self.table[position_reverse_c] = value;
                self.table[position_reverse_r] = value;
                self.table[position_tr] = value;
                self.table[position_atr] = value;
                proof {
                    lemma_symmetrize_step(
                        initial,
                        table,
                        done,
                        self.table@,
                        book_keep@,
                        p,
                        base,
                        n,
                    );
                }
            }
            position = position + 1;
        }
        assert(self.table@ =~= symmetrized(initial, base, n));
    }

    /// Whether the rule is read back from a rule file as itself: its table
    /// has its size, and its number of states is the one that the length of
    /// the table is read with, which is any from 2 to 29 but 16.
    pub fn reads_back_as_itself(&self) -> (b: bool)
        ensures
            b == (self@.size_matches() && inferred_states(self@.table.len() as int) == Some(
                self@.states as int,
            )),
            b == (self@.size_matches() && told_by_length(self@.states as int)),
    {
        if !self.check() {
            return false;
        }
        proof {
            states_read_from_length(self@);
        }
        match infer_shape(self.table.len() as u64) {
            Some((states, _)) => states == self.states,
            None => false,
        }
    }

    /// The table as the bytes of a rule file before compression: one byte
    /// for each entry, in the order of the table. `None` where an entry is
    /// too large to have a byte.
    pub fn to_digits(&self) -> (digits: Option<Vec<u8>>)
        ensures
            match digits {
                Some(d) => renderable(self@.table) && d@ == ascii_digits(self@.table),
                None => !renderable(self@.table),
            },
    {
        let mut out: Vec<u8> = Vec::new();
        let mut i: usize = 0;
        while i < self.table.len()
            invariant
                i <= self.table.len(),
                out.len() == i,
                forall|k: int| 0 <= k < i ==> #[trigger] self.table[k] <= 207,
                forall|k: int| 0 <= k < i ==> #[trigger] out[k] == self.table[k] + 48,
            decreases self.table.len() - i,
        {
            let entry = self.table[i];
            if entry > 207 {
                return None;
            }
            out.push(entry + 48);
            i = i + 1;
        }
        assert(out@ =~= ascii_digits(self@.table));
        Some(out)
    }

    /// Reads a rule from the decoded bytes of a rule file. The number of
    /// states and the radius are inferred from the number of bytes alone.
    pub fn from_digits(digits: Vec<u8>) -> (res: Result<Rule, RuleError>)
        ensures
            match res {
                Ok(rule) => rule_of_digits(digits@) == Some(rule@) && rule@.size_matches(),
                Err(RuleError::RuleFormatError) => !all_digits(digits@),
                Err(RuleError::RuleSizeMismatch) => all_digits(digits@) && rule_of_digits(
                    digits@,
                ).is_none(),
                Err(RuleError::RuleFileError(_)) => false,
            },
    {
        let mut table = digits;
        let mut i: usize = 0;
        while i < table.len()
            invariant
                i <= table.len(),
                table.len() == digits.len(),
                forall|k: int| 0 <= k < i ==> #[trigger] digits[k] >= 48,
                forall|k: int| 0 <= k < i ==> #[trigger] table[k] == digits[k] - 48,
                forall|k: int| i <= k < table.len() ==> #[trigger] table[k] == digits[k],
            decreases table.len() - i,
        {
            let byte = table[i];
            if byte < 48 {
                return Err(RuleError::RuleFormatError);
            }
            table[i] = byte - 48;
            i = i + 1;
        }
        assert(table@ =~= entries_of(digits@));
        match infer_shape(table.len() as u64) {
            Some((states, m)) => {
                if m % 2 == 1 {
                    proof {
                        lemma_first_fit_range(table.len() as int, 2);
                        lemma_exponent_below_64(states as int, cell_count(m as int));
                        assert(m < 8) by (nonlinear_arith)
                            requires
                                m * m < 64,
                        ;
                    }
                    let horizon = ((m - 1) / 2) as i8;
                    assert(side_of(horizon as int) == m);
                    Ok(Rule { horizon, states, table })
                } else {
                    Err(RuleError::RuleSizeMismatch)
                }
            },
            None => Err(RuleError::RuleSizeMismatch),
        }
    }

    /// The rule as the bytes of a rule file: the table rendered as bytes and
    /// compressed as a gzip stream. A table with an entry that has no byte is
    /// refused; every other table is written wherever the compressor accepts
    /// its bytes. What comes out reads back as the rule itself, where the
    /// length of the table tells the number of states.
    pub fn serialize(&self) -> (res: Result<Vec<u8>, RuleError>)
        ensures
            match res {
                Ok(out) => renderable(self@.table) && gzip_encoding(ascii_digits(self@.table))
                    == Some(out@) && decoding(out@) == Some(ascii_digits(self@.table)),
                Err(RuleError::RuleFormatError) => !renderable(self@.table),
                Err(RuleError::RuleFileError(_)) => renderable(self@.table) && gzip_encoding(
                    ascii_digits(self@.table),
                ).is_none(),
                Err(RuleError::RuleSizeMismatch) => false,
            },
            renderable(self@.table) ==> (res is Ok <==> gzip_encoding(
                ascii_digits(self@.table),
            ) is Some),
            res matches Ok(out) ==> (self@.size_matches() && inferred_states(
                self@.table.len() as int,
            ) == Some(self@.states as int) ==> read_back(out@) == Some(self@)),
            res matches Ok(out) ==> (self@.size_matches() && told_by_length(self@.states as int)
                ==> read_back(out@) == Some(self@)),
    {
        match self.to_digits() {
            Some(digits) => {
                match gzip_compress(&digits) {
                    Ok(out) => {
                        proof {
                            if self@.size_matches() && told_by_length(self@.states as int) {
                                states_read_from_length(self@);
                            }
                            if self@.size_matches() && inferred_states(self@.table.len() as int)
                                == Some(self@.states as int) {
                                digits_round_trip(self@);
                            }
                        }
                        Ok(out)
                    },
                    Err(e) => Err(RuleError::RuleFileError(e)),
                }
            },
            None => Err(RuleError::RuleFormatError),
        }
    }

    /// Reads a rule from the bytes of a rule file: a gzip stream where the
    /// bytes begin with the gzip signature, a zlib stream otherwise.
    pub fn deserialize(bytes: &[u8]) -> (res: Result<Rule, RuleError>)
        ensures
            match res {
                Ok(rule) => read_back(bytes@) == Some(rule@) && rule@.size_matches(),
                Err(RuleError::RuleFileError(_)) => decoding(bytes@).is_none(),
                Err(RuleError::RuleFormatError) => decoding(bytes@) matches Some(d) && !all_digits(
                    d,
                ),
                Err(RuleError::RuleSizeMismatch) => decoding(bytes@) matches Some(d) && all_digits(
                    d,
                ) && rule_of_digits(d).is_none(),
            },
    {
        let decoded = if is_gzip(bytes) {
            gzip_decompress(bytes)
        } else {
            zlib_decompress(bytes)
        };
        match decoded {
            Ok(digits) => Rule::from_digits(digits),
            Err(e) => Err(RuleError::RuleFileError(e)),
        }
    }
}

} // verus!
