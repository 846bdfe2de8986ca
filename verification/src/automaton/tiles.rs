//! Tiles as mathematics: how a grid is cut into tiles that share their
//! borders, which cell of the grid a cell of a tile is, and what it means to
//! renew a part of the grid in every tile that holds it.
use crate::lattice::{is_grid, next_state, step, steps, wrap};
use crate::rule::RuleView;
use crate::symmetry::{cell, lemma_cell_coords, lemma_cell_split};
use vstd::arithmetic::div_mod::*;
use vstd::prelude::*;

verus! {

/// The side of a tile, its shared borders included.
pub const TILE_SIZE: usize = 257;

/// The number of cells of a tile.
pub const TILE_AREA: usize = 66049;

/// The distance between the first rows of two neighbouring tiles: the side of
/// a tile less the shared border.
pub const TILE_STEP: usize = 256;

/// A buffer of tiles, row by row; each tile holds its cells row by row.
pub type TiledGrid = Vec<[u8; TILE_AREA]>;

/// The cells of each tile of a buffer.
pub open spec fn tiles_of(grid: Seq<[u8; TILE_AREA]>) -> Seq<Seq<u8>> {
    Seq::new(grid.len(), |t: int| grid[t]@)
}

/// The side of the grid that `nt` tiles a side cover.
pub open spec fn extent(nt: int) -> int {
    nt * 256
}

/// The cell at `(x, y)` of the tile at `(tx, ty)`.
pub open spec fn tile_cell(tiles: Seq<Seq<u8>>, nt: int, tx: int, ty: int, x: int, y: int) -> u8 {
    tiles[cell(nt, tx, ty)][cell(257, x, y)]
}

/// The row (or column) of the grid that row (or column) `x` of the tiles in
/// row (or column) `t` of tiles is. The last row of the last tiles is the
/// first row of the grid.
pub open spec fn pos(nt: int, t: int, x: int) -> int {
    if t * 256 + x >= nt * 256 {
        t * 256 + x - nt * 256
    } else {
        t * 256 + x
    }
}

/// `tiles` is `nt` by `nt` tiles of `TILE_AREA` cells.
pub open spec fn is_tiling(tiles: Seq<Seq<u8>>, nt: int) -> bool {
    &&& nt >= 0
    &&& tiles.len() == nt * nt
    &&& forall|t: int| 0 <= t < tiles.len() ==> (#[trigger] tiles[t]).len() == TILE_AREA
}

/// `(tx, ty, x, y)` names a cell of a tile.
pub open spec fn in_tiles(nt: int, tx: int, ty: int, x: int, y: int) -> bool {
    0 <= tx < nt && 0 <= ty < nt && 0 <= x <= 256 && 0 <= y <= 256
}

/// The grid that the tiles hold, row by row: every cell is read from the
/// tile that it lies in, not on its last row or column.
pub open spec fn flattened(tiles: Seq<Seq<u8>>, nt: int) -> Seq<u8> {
    Seq::new(
        (extent(nt) * extent(nt)) as nat,
        |k: int|
            tile_cell(
                tiles,
                nt,
                (k / extent(nt)) / 256,
                (k % extent(nt)) / 256,
                (k / extent(nt)) % 256,
                (k % extent(nt)) % 256,
            ),
    )
}

/// All the copies of a cell agree: every cell of every tile is the cell of
/// the grid at its position.
pub open spec fn coherent(tiles: Seq<Seq<u8>>, nt: int) -> bool {
    forall|tx: int, ty: int, x: int, y: int|
        in_tiles(nt, tx, ty, x, y) ==> #[trigger] tile_cell(tiles, nt, tx, ty, x, y) == flattened(
            tiles,
            nt,
        )[cell(extent(nt), pos(nt, tx, x), pos(nt, ty, y))]
}

/// A tiled automaton as a mathematical value.
pub struct TiledAutomatonView {
    /// The side of the grid that was asked for.
    pub size: usize,
    /// The number of tiles a side.
    pub n_tiles: usize,
    /// The number of states of a cell.
    pub states: u8,
    /// Which of the two buffers holds the grid.
    pub flop: bool,
    /// The tiles of the grid.
    pub tiles: Seq<Seq<u8>>,
    /// The tiles of the other buffer.
    pub prev_tiles: Seq<Seq<u8>>,
    /// The rule.
    pub rule: RuleView,
}

impl TiledAutomatonView {
    /// The side of the grid that the tiles cover.
    pub open spec fn extent(self) -> int {
        extent(self.n_tiles as int)
    }

    /// The grid, row by row.
    pub open spec fn cells(self) -> Seq<u8> {
        flattened(self.tiles, self.n_tiles as int)
    }

    /// The grid after one step of the rule.
    pub open spec fn next_cells(self) -> Seq<u8> {
        step(self.cells(), self.extent(), self.rule)
    }

    /// The next state of the cell at each position of the grid.
    pub open spec fn next_value(self) -> spec_fn(int, int) -> u8 {
        |r: int, c: int| next_state(self.cells(), self.extent(), self.rule, r, c)
    }

    /// The grid after `count` updates.
    pub open spec fn cells_after(self, count: nat) -> Seq<u8> {
        steps(self.cells(), self.extent(), self.rule, count)
    }

    /// The rule is well formed, has radius one and is a rule for the states
    /// of the grid; the tiles are as many as fit into the side asked for;
    /// both buffers are tilings; the copies of every cell of the grid agree,
    /// and the grid is a grid of these states that fits in memory.
    pub open spec fn wf(self) -> bool {
        &&& self.rule.wf()
        &&& self.rule.horizon == 1
        &&& self.states == self.rule.states
        &&& self.n_tiles == self.size / 256
        &&& is_tiling(self.tiles, self.n_tiles as int)
        &&& is_tiling(self.prev_tiles, self.n_tiles as int)
        &&& coherent(self.tiles, self.n_tiles as int)
        &&& is_grid(self.cells(), self.extent(), self.states as int)
        &&& self.extent() * self.extent() <= usize::MAX
    }
}

/// The position of a cell of a tile is a position of the grid, and is where
/// the torus takes the cell's coordinates.
pub proof fn lemma_pos(nt: int, t: int, x: int)
    requires
        0 <= t < nt,
        0 <= x <= 256,
    ensures
        0 <= pos(nt, t, x) < extent(nt),
        pos(nt, t, x) == wrap(t * 256 + x, extent(nt)),
        x < 256 ==> pos(nt, t, x) == t * 256 + x && pos(nt, t, x) / 256 == t && pos(nt, t, x) % 256
            == x,
{
    let e = extent(nt);
    if t * 256 + x >= e {
        lemma_mod_self_0(e);
    } else {
        lemma_small_mod((t * 256 + x) as nat, e as nat);
    }
}

/// The row before the first row of a tile is the last row but one of the
/// tile before it, around the torus.
pub proof fn lemma_pos_before(nt: int, t: int)
    requires
        0 <= t < nt,
    ensures
        wrap(t * 256 - 1, extent(nt)) == pos(nt, if t == 0 { nt - 1 } else { t - 1 }, 255),
{
    let e = extent(nt);
    if t == 0 {
        lemma_mod_add_multiples_vanish(-1, e);
        lemma_small_mod((e - 1) as nat, e as nat);
    } else {
        lemma_small_mod((t * 256 - 1) as nat, e as nat);
    }
}

/// The cell of the grid at `(row, col)` is read from the tile that it lies in.
pub proof fn lemma_flattened(tiles: Seq<Seq<u8>>, nt: int, row: int, col: int)
    requires
        0 <= row < extent(nt),
        0 <= col < extent(nt),
    ensures
        0 <= cell(extent(nt), row, col) < flattened(tiles, nt).len(),
        flattened(tiles, nt)[cell(extent(nt), row, col)] == tile_cell(
            tiles,
            nt,
            row / 256,
            col / 256,
            row % 256,
            col % 256,
        ),
        0 <= row / 256 < nt,
        0 <= col / 256 < nt,
{
    lemma_cell_coords(extent(nt), row, col);
}

/// Tiles that hold, in every copy of every cell, the next state of the cell
/// hold the next grid, and their copies agree.
pub proof fn lemma_next_tiles(tiles: Seq<Seq<u8>>, next: Seq<Seq<u8>>, nt: int, rule: RuleView)
    requires
        nt >= 0,
        forall|tx: int, ty: int, x: int, y: int|
            in_tiles(nt, tx, ty, x, y) ==> #[trigger] tile_cell(next, nt, tx, ty, x, y)
                == next_state(flattened(tiles, nt), extent(nt), rule, pos(nt, tx, x), pos(nt, ty,
                    y)),
    ensures
        flattened(next, nt) == step(flattened(tiles, nt), extent(nt), rule),
        coherent(next, nt),
{
    let e = extent(nt);
    let grid = flattened(tiles, nt);
    let after = flattened(next, nt);
    assert forall|k: int| 0 <= k < after.len() implies after[k] == step(grid, e, rule)[k] by {
        lemma_cell_split(e, k);
        let row = k / e;
        let col = k % e;
        lemma_pos(nt, row / 256, row % 256);
        lemma_pos(nt, col / 256, col % 256);
        assert(in_tiles(nt, row / 256, col / 256, row % 256, col % 256));
    }
    assert(after =~= step(grid, e, rule));
    assert forall|tx: int, ty: int, x: int, y: int|
        in_tiles(nt, tx, ty, x, y) implies #[trigger] tile_cell(
        next,
        nt,
        tx,
        ty,
        x,
        y,
    ) == after[cell(e, pos(nt, tx, x), pos(nt, ty, y))] by {
        lemma_pos(nt, tx, x);
        lemma_pos(nt, ty, y);
        let row = pos(nt, tx, x);
        let col = pos(nt, ty, y);
        lemma_cell_coords(e, row, col);
    }
}

/// `new` is a tiling that holds what `old` holds, but for the copies of the
/// cells of the grid in `region`: each of these holds the `value` of its
/// position.
pub open spec fn renewed(
    new: Seq<Seq<u8>>,
    old: Seq<Seq<u8>>,
    nt: int,
    region: spec_fn(int, int) -> bool,
    value: spec_fn(int, int) -> u8,
) -> bool {
    &&& is_tiling(new, nt)
    &&& forall|tx: int, ty: int, x: int, y: int|
        in_tiles(nt, tx, ty, x, y) ==> #[trigger] tile_cell(new, nt, tx, ty, x, y) == if region(
            pos(nt, tx, x),
            pos(nt, ty, y),
        ) {
            value(pos(nt, tx, x), pos(nt, ty, y))
        } else {
            tile_cell(old, nt, tx, ty, x, y)
        }
}

/// The tiles before the tiles in row (or column) `t`, around the torus.
pub open spec fn tile_before(nt: int, t: int) -> int {
    if t == 0 {
        nt - 1
    } else {
        t - 1
    }
}

/// The tiles with the cell at `(x, y)` of the tile at `(tx, ty)` set to
/// `state`.
pub open spec fn with_cell(
    tiles: Seq<Seq<u8>>,
    nt: int,
    tx: int,
    ty: int,
    x: int,
    y: int,
    state: u8,
) -> Seq<Seq<u8>> {
    tiles.update(cell(nt, tx, ty), tiles[cell(nt, tx, ty)].update(cell(257, x, y), state))
}

/// Setting one cell of one tile changes that cell and no other.
pub proof fn lemma_with_cell(
    tiles: Seq<Seq<u8>>,
    nt: int,
    tx: int,
    ty: int,
    x: int,
    y: int,
    state: u8,
)
    requires
        is_tiling(tiles, nt),
        in_tiles(nt, tx, ty, x, y),
    ensures
        is_tiling(with_cell(tiles, nt, tx, ty, x, y, state), nt),
        forall|ux: int, uy: int, a: int, b: int|
            in_tiles(nt, ux, uy, a, b) ==> #[trigger] tile_cell(
                with_cell(tiles, nt, tx, ty, x, y, state),
                nt,
                ux,
                uy,
                a,
                b,
            ) == if ux == tx && uy == ty && a == x && b == y {
                state
            } else {
                tile_cell(tiles, nt, ux, uy, a, b)
            },
{
    let new = with_cell(tiles, nt, tx, ty, x, y, state);
    lemma_cell_coords(nt, tx, ty);
    assert forall|ux: int, uy: int, a: int, b: int|
        in_tiles(nt, ux, uy, a, b) implies #[trigger] tile_cell(
        new,
        nt,
        ux,
        uy,
        a,
        b,
    ) == if ux == tx && uy == ty && a == x && b == y {
        state
    } else {
        tile_cell(tiles, nt, ux, uy, a, b)
    } by {
        lemma_cell_coords(nt, ux, uy);
    }
}

/// The rows of tiles that hold a row of the grid: the row of the tile that
/// the row lies in and, for the first row of a tile, the last row of the tile
/// before it.
pub proof fn lemma_pos_copies(nt: int, tx: int, x: int, ux: int, a: int)
    requires
        0 <= tx < nt,
        0 <= x < 256,
        0 <= ux < nt,
        0 <= a <= 256,
    ensures
        pos(nt, ux, a) == tx * 256 + x <==> (ux == tx && a == x) || (x == 0 && ux == tile_before(
            nt,
            tx,
        ) && a == 256),
{
}

/// The tiles after a cell of the grid has been written in every tile that
/// holds a copy of it.
pub open spec fn with_copies(
    tiles: Seq<Seq<u8>>,
    nt: int,
    tx: int,
    ty: int,
    x: int,
    y: int,
    state: u8,
) -> Seq<Seq<u8>> {
    let px = tile_before(nt, tx);
    let py = tile_before(nt, ty);
    let t1 = with_cell(tiles, nt, tx, ty, x, y, state);
    let t2 = if x == 0 {
        with_cell(t1, nt, px, ty, 256, y, state)
    } else {
        t1
    };
    let t3 = if y == 0 {
        with_cell(t2, nt, tx, py, x, 256, state)
    } else {
        t2
    };
    if x == 0 && y == 0 {
        with_cell(t3, nt, px, py, 256, 256, state)
    } else {
        t3
    }
}

/// Writing a cell of the grid in every tile that holds a copy of it renews
/// that cell and no other.
pub proof fn lemma_with_copies(
    tiles: Seq<Seq<u8>>,
    nt: int,
    tx: int,
    ty: int,
    x: int,
    y: int,
    state: u8,
)
    requires
        is_tiling(tiles, nt),
        0 <= tx < nt,
        0 <= ty < nt,
        0 <= x < 256,
        0 <= y < 256,
    ensures
        renewed(
            with_copies(tiles, nt, tx, ty, x, y, state),
            tiles,
            nt,
            one_cell(tx * 256 + x, ty * 256 + y),
            always(state),
        ),
{
    let px = tile_before(nt, tx);
    let py = tile_before(nt, ty);
    let t1 = with_cell(tiles, nt, tx, ty, x, y, state);
    lemma_with_cell(tiles, nt, tx, ty, x, y, state);
    let t2 = if x == 0 {
        with_cell(t1, nt, px, ty, 256, y, state)
    } else {
        t1
    };
    if x == 0 {
        lemma_with_cell(t1, nt, px, ty, 256, y, state);
    }
    let t3 = if y == 0 {
        with_cell(t2, nt, tx, py, x, 256, state)
    } else {
        t2
    };
    if y == 0 {
        lemma_with_cell(t2, nt, tx, py, x, 256, state);
    }
    let t4 = with_copies(tiles, nt, tx, ty, x, y, state);
    if x == 0 && y == 0 {
        lemma_with_cell(t3, nt, px, py, 256, 256, state);
    }
    let region = one_cell(tx * 256 + x, ty * 256 + y);
    let value = always(state);
    assert forall|ux: int, uy: int, a: int, b: int|
        in_tiles(nt, ux, uy, a, b) implies #[trigger] tile_cell(
        t4,
        nt,
        ux,
        uy,
        a,
        b,
    ) == if region(pos(nt, ux, a), pos(nt, uy, b)) {
        value(pos(nt, ux, a), pos(nt, uy, b))
    } else {
        tile_cell(tiles, nt, ux, uy, a, b)
    } by {
        lemma_pos_copies(nt, tx, x, ux, a);
        lemma_pos_copies(nt, ty, y, uy, b);
        assert(tile_cell(t1, nt, ux, uy, a, b) == if ux == tx && uy == ty && a == x && b == y {
            state
        } else {
            tile_cell(tiles, nt, ux, uy, a, b)
        });
        assert(tile_cell(t2, nt, ux, uy, a, b) == if x == 0 && ux == px && uy == ty && a == 256
            && b == y {
            state
        } else {
            tile_cell(t1, nt, ux, uy, a, b)
        });
        assert(tile_cell(t3, nt, ux, uy, a, b) == if y == 0 && ux == tx && uy == py && a == x && b
            == 256 {
            state
        } else {
            tile_cell(t2, nt, ux, uy, a, b)
        });
        assert(tile_cell(t4, nt, ux, uy, a, b) == if x == 0 && y == 0 && ux == px && uy == py && a
            == 256 && b == 256 {
            state
        } else {
            tile_cell(t3, nt, ux, uy, a, b)
        });
    }
}

/// The one cell of the grid at `(row, col)`.
pub open spec fn one_cell(row: int, col: int) -> spec_fn(int, int) -> bool {
    |r: int, c: int| r == row && c == col
}

/// The same state for every cell.
pub open spec fn always(state: u8) -> spec_fn(int, int) -> u8 {
    |r: int, c: int| state
}

/// The cell at `(r, c)` of the grid lies in the tile at `(tx, ty)`, not on
/// its last row or column.
pub open spec fn lies_in(r: int, c: int, tx: int, ty: int) -> bool {
    r / 256 == tx && c / 256 == ty
}

/// The cell at `(r, c)` of the grid lies on the first row or column of its
/// tile, and so in other tiles too.
pub open spec fn is_shared(r: int, c: int) -> bool {
    r % 256 == 0 || c % 256 == 0
}

/// The tile of the cell at `(r, c)` comes before the tile at `(tx, ty)`,
/// row by row.
pub open spec fn lies_before(r: int, c: int, tx: int, ty: int) -> bool {
    r / 256 < tx || (r / 256 == tx && c / 256 < ty)
}

/// The cells of the tile at `(tx, ty)` that no other tile shares.
pub open spec fn inner_of(tx: int, ty: int) -> spec_fn(int, int) -> bool {
    |r: int, c: int| lies_in(r, c, tx, ty) && !is_shared(r, c)
}

/// Those of them that come before the cell at `(i, j)` of the tile, row by
/// row.
pub open spec fn inner_part(tx: int, ty: int, i: int, j: int) -> spec_fn(int, int) -> bool {
    |r: int, c: int|
        lies_in(r, c, tx, ty) && !is_shared(r, c) && (r % 256 < i || (r % 256 == i && c % 256 < j))
}

/// The cells on the first column and the first row of the tile at
/// `(tx, ty)`.
pub open spec fn border_of(tx: int, ty: int) -> spec_fn(int, int) -> bool {
    |r: int, c: int| lies_in(r, c, tx, ty) && is_shared(r, c)
}

/// Those of them on the first column before row `i`, on the first row before
/// column `j`, and the corner where `corner` is set.
pub open spec fn border_part(tx: int, ty: int, i: int, j: int, corner: bool) -> spec_fn(
    int,
    int,
) -> bool {
    |r: int, c: int|
        lies_in(r, c, tx, ty) && ((c % 256 == 0 && 1 <= r % 256 < i) || (r % 256 == 0 && 1 <= c
            % 256 < j) || (corner && r % 256 == 0 && c % 256 == 0))
}

/// The cells that no tiles share, of the tiles before the tile at
/// `(tx, ty)`.
pub open spec fn inner_before(tx: int, ty: int) -> spec_fn(int, int) -> bool {
    |r: int, c: int| !is_shared(r, c) && lies_before(r, c, tx, ty)
}

/// The cells that no tiles share, of all the tiles, and all the cells of the
/// tiles before the tile at `(tx, ty)`.
pub open spec fn all_before(tx: int, ty: int) -> spec_fn(int, int) -> bool {
    |r: int, c: int| !is_shared(r, c) || lies_before(r, c, tx, ty)
}

/// Renewing one region and then another renews the two together.
pub proof fn lemma_renewed_union(
    first: Seq<Seq<u8>>,
    mid: Seq<Seq<u8>>,
    last: Seq<Seq<u8>>,
    nt: int,
    region1: spec_fn(int, int) -> bool,
    region2: spec_fn(int, int) -> bool,
    both: spec_fn(int, int) -> bool,
    value: spec_fn(int, int) -> u8,
    value2: spec_fn(int, int) -> u8,
)
    requires
        renewed(mid, first, nt, region1, value),
        renewed(last, mid, nt, region2, value2),
        forall|r: int, c: int|
            0 <= r < extent(nt) && 0 <= c < extent(nt) ==> #[trigger] both(r, c) == (region1(r, c)
                || region2(r, c)),
        forall|r: int, c: int|
            0 <= r < extent(nt) && 0 <= c < extent(nt) && region2(r, c) ==> #[trigger] value2(r, c)
                == value(r, c),
    ensures
        renewed(last, first, nt, both, value),
{
    assert forall|tx: int, ty: int, x: int, y: int|
        in_tiles(nt, tx, ty, x, y) implies #[trigger] tile_cell(
        last,
        nt,
        tx,
        ty,
        x,
        y,
    ) == if both(pos(nt, tx, x), pos(nt, ty, y)) {
        value(pos(nt, tx, x), pos(nt, ty, y))
    } else {
        tile_cell(first, nt, tx, ty, x, y)
    } by {
        lemma_pos(nt, tx, x);
        lemma_pos(nt, ty, y);
        let r = pos(nt, tx, x);
        let c = pos(nt, ty, y);
        assert(both(r, c) == (region1(r, c) || region2(r, c)));
        if region2(r, c) {
            assert(value2(r, c) == value(r, c));
        }
        assert(tile_cell(mid, nt, tx, ty, x, y) == if region1(r, c) {
            value(r, c)
        } else {
            tile_cell(first, nt, tx, ty, x, y)
        });
    }
}

/// A tiling renews the empty region of itself.
pub proof fn lemma_renewed_same(
    tiles: Seq<Seq<u8>>,
    nt: int,
    region: spec_fn(int, int) -> bool,
    value: spec_fn(int, int) -> u8,
)
    requires
        is_tiling(tiles, nt),
        forall|r: int, c: int|
            0 <= r < extent(nt) && 0 <= c < extent(nt) ==> !#[trigger] region(r, c),
    ensures
        renewed(tiles, tiles, nt, region, value),
{
    assert forall|tx: int, ty: int, x: int, y: int| in_tiles(nt, tx, ty, x, y) implies !region(
        pos(nt, tx, x),
        pos(nt, ty, y),
    ) by {
        lemma_pos(nt, tx, x);
        lemma_pos(nt, ty, y);
    }
}

/// What renews a region renews every region that has the same cells of the
/// grid.
pub proof fn lemma_renewed_again(
    new: Seq<Seq<u8>>,
    old: Seq<Seq<u8>>,
    nt: int,
    region: spec_fn(int, int) -> bool,
    same: spec_fn(int, int) -> bool,
    value: spec_fn(int, int) -> u8,
)
    requires
        renewed(new, old, nt, region, value),
        forall|r: int, c: int|
            0 <= r < extent(nt) && 0 <= c < extent(nt) ==> #[trigger] same(r, c) == region(r, c),
    ensures
        renewed(new, old, nt, same, value),
{
    assert forall|tx: int, ty: int, x: int, y: int|
        in_tiles(nt, tx, ty, x, y) implies #[trigger] tile_cell(
        new,
        nt,
        tx,
        ty,
        x,
        y,
    ) == if same(pos(nt, tx, x), pos(nt, ty, y)) {
        value(pos(nt, tx, x), pos(nt, ty, y))
    } else {
        tile_cell(old, nt, tx, ty, x, y)
    } by {
        lemma_pos(nt, tx, x);
        lemma_pos(nt, ty, y);
        assert(same(pos(nt, tx, x), pos(nt, ty, y)) == region(pos(nt, tx, x), pos(nt, ty, y)));
    }
}

/// Writing one cell of the grid in all its copies keeps the copies of every
/// cell in agreement, and changes that cell of the grid and no other.
pub proof fn lemma_store_coherent(
    old: Seq<Seq<u8>>,
    new: Seq<Seq<u8>>,
    nt: int,
    row: int,
    col: int,
    state: u8,
)
    requires
        coherent(old, nt),
        renewed(new, old, nt, one_cell(row, col), always(state)),
        0 <= row < extent(nt),
        0 <= col < extent(nt),
    ensures
        coherent(new, nt),
        0 <= cell(extent(nt), row, col) < flattened(old, nt).len(),
        flattened(new, nt) == flattened(old, nt).update(cell(extent(nt), row, col), state),
{
    let e = extent(nt);
    let before = flattened(old, nt);
    let after = flattened(new, nt);
    lemma_cell_coords(e, row, col);
    assert forall|k: int| 0 <= k < after.len() implies after[k] == before.update(
        cell(e, row, col),
        state,
    )[k] by {
        lemma_cell_split(e, k);
        let r = k / e;
        let c = k % e;
        lemma_pos(nt, r / 256, r % 256);
        lemma_pos(nt, c / 256, c % 256);
        assert(in_tiles(nt, r / 256, c / 256, r % 256, c % 256));
    }
    assert(after =~= before.update(cell(e, row, col), state));
    assert forall|tx: int, ty: int, x: int, y: int|
        in_tiles(nt, tx, ty, x, y) implies #[trigger] tile_cell(
        new,
        nt,
        tx,
        ty,
        x,
        y,
    ) == after[cell(e, pos(nt, tx, x), pos(nt, ty, y))] by {
        lemma_pos(nt, tx, x);
        lemma_pos(nt, ty, y);
        lemma_cell_coords(e, pos(nt, tx, x), pos(nt, ty, y));
        assert(tile_cell(old, nt, tx, ty, x, y) == before[cell(e, pos(nt, tx, x), pos(nt, ty, y))]);
    }
}

/// The tiles after the tiles in row (or column) `t`, around the torus.
pub open spec fn tile_after(nt: int, t: int) -> int {
    if t + 1 == nt {
        0
    } else {
        t + 1
    }
}

/// The last row of the tile at `(tx, ty)` is the first row of the tile after
/// it, and its last column is the first column of the tile to its right.
pub open spec fn seams_agree(tiles: Seq<Seq<u8>>, nt: int, tx: int, ty: int) -> bool {
    &&& forall|k: int|
        0 <= k <= 256 ==> #[trigger] tile_cell(tiles, nt, tx, ty, 256, k) == tile_cell(
            tiles,
            nt,
            tile_after(nt, tx),
            ty,
            0,
            k,
        )
    &&& forall|k: int|
        0 <= k <= 256 ==> #[trigger] tile_cell(tiles, nt, tx, ty, k, 256) == tile_cell(
            tiles,
            nt,
            tx,
            tile_after(nt, ty),
            k,
            0,
        )
}

/// Where every tile agrees with the tiles after it along their seams, all
/// the copies of every cell agree.
pub proof fn lemma_seams_make_coherent(tiles: Seq<Seq<u8>>, nt: int)
    requires
        forall|tx: int, ty: int|
            0 <= tx < nt && 0 <= ty < nt ==> #[trigger] seams_agree(tiles, nt, tx, ty),
    ensures
        coherent(tiles, nt),
{
    assert forall|tx: int, ty: int, x: int, y: int|
        in_tiles(nt, tx, ty, x, y) implies #[trigger] tile_cell(
        tiles,
        nt,
        tx,
        ty,
        x,
        y,
    ) == flattened(tiles, nt)[cell(extent(nt), pos(nt, tx, x), pos(nt, ty, y))] by {
        lemma_pos(nt, tx, x);
        lemma_pos(nt, ty, y);
        lemma_flattened(tiles, nt, pos(nt, tx, x), pos(nt, ty, y));
        let ax = tile_after(nt, tx);
        let ay = tile_after(nt, ty);
        assert(seams_agree(tiles, nt, tx, ty));
        assert(seams_agree(tiles, nt, ax, ty));
        if x == 256 && y == 256 {
            assert(tile_cell(tiles, nt, tx, ty, 256, 256) == tile_cell(tiles, nt, ax, ty, 0, 256));
            assert(tile_cell(tiles, nt, ax, ty, 0, 256) == tile_cell(tiles, nt, ax, ay, 0, 0));
        } else if x == 256 {
            assert(tile_cell(tiles, nt, tx, ty, 256, y) == tile_cell(tiles, nt, ax, ty, 0, y));
        } else if y == 256 {
            assert(tile_cell(tiles, nt, tx, ty, x, 256) == tile_cell(tiles, nt, tx, ay, x, 0));
        }
    }
}

/// Where all the copies of every cell agree, every tile agrees with the
/// tiles after it along their seams.
pub proof fn lemma_coherent_has_seams(tiles: Seq<Seq<u8>>, nt: int, tx: int, ty: int)
    requires
        coherent(tiles, nt),
        0 <= tx < nt,
        0 <= ty < nt,
    ensures
        seams_agree(tiles, nt, tx, ty),
{
    let ax = tile_after(nt, tx);
    let ay = tile_after(nt, ty);
    assert forall|k: int| 0 <= k <= 256 implies #[trigger] tile_cell(tiles, nt, tx, ty, 256, k)
        == tile_cell(tiles, nt, ax, ty, 0, k) by {
        assert(in_tiles(nt, tx, ty, 256, k));
        assert(in_tiles(nt, ax, ty, 0, k));
        assert(pos(nt, tx, 256) == pos(nt, ax, 0));
    }
    assert forall|k: int| 0 <= k <= 256 implies #[trigger] tile_cell(tiles, nt, tx, ty, k, 256)
        == tile_cell(tiles, nt, tx, ay, k, 0) by {
        assert(in_tiles(nt, tx, ty, k, 256));
        assert(in_tiles(nt, tx, ay, k, 0));
        assert(pos(nt, ty, 256) == pos(nt, ay, 0));
    }
}

} // verus!
