//! A grid of tiles drawn from one sprite-sheet atlas as a single mesh: the
//! tile grid itself and the layout of the mesh baked from it.

use vstd::prelude::*;
use crate::sprite::SpriteSheet;

verus! {

/// Tile value meaning "no tile here" (the cell is left empty).
pub const EMPTY: u32 = u32::MAX;

/// One non-empty tile of the baked mesh: its cell and its atlas frame.
#[derive(Copy, Clone, Debug, PartialEq, Eq, Structural)]
pub struct TileQuad {
    /// Column of the tile.
    pub col: u32,
    /// Row of the tile (row 0 at the top).
    pub row: u32,
    /// Atlas frame index.
    pub frame: u32,
}

/// A grid of tiles indexing the frames of a sprite sheet, stored row-major.
pub struct Tilemap {
    columns: u32,
    rows: u32,
    sheet: SpriteSheet,
    tiles: Vec<u32>,
}

/// The quad of flat cell `k` of a grid with `columns` columns holding `frame`.
pub open spec fn quad_at(columns: u32, k: int, frame: u32) -> TileQuad {
    TileQuad { col: (k % columns as int) as u32, row: (k / columns as int) as u32, frame }
}

/// The non-empty tiles of a row-major grid, in row-major order.
pub open spec fn occupied(columns: u32, tiles: Seq<u32>) -> Seq<TileQuad>
    decreases tiles.len(),
{
    if tiles.len() == 0 {
        Seq::empty()
    } else {
        let k = tiles.len() - 1;
        let rest = occupied(columns, tiles.drop_last());
        if tiles[k] == EMPTY {
            rest
        } else {
            rest.push(quad_at(columns, k, tiles[k]))
        }
    }
}

impl Tilemap {
    /// Number of columns.
    pub closed spec fn spec_columns(self) -> nat {
        self.columns as nat
    }

    /// Number of rows.
    pub closed spec fn spec_rows(self) -> nat {
        self.rows as nat
    }

    /// The atlas the tiles index.
    pub closed spec fn spec_sheet(self) -> SpriteSheet {
        self.sheet
    }

    /// The tiles, row-major.
    pub closed spec fn cells(self) -> Seq<u32> {
        self.tiles@
    }

    /// The grid holds exactly one tile per cell.
    pub open spec fn wf(self) -> bool {
        &&& self.cells().len() == self.spec_columns() * self.spec_rows()
        &&& self.spec_columns() * self.spec_rows() <= u32::MAX
    }

    /// The tile at `(col, row)`, or [`EMPTY`] out of range.
    pub open spec fn spec_tile(self, col: int, row: int) -> u32 {
        if 0 <= col < self.spec_columns() && 0 <= row < self.spec_rows() {
            self.cells()[row * self.spec_columns() + col]
        } else {
            EMPTY
        }
    }

    /// Creates a `columns` x `rows` map indexing frames of `sheet`, entirely empty.
    pub fn new(columns: u32, rows: u32, sheet: SpriteSheet) -> (t: Tilemap)
        requires
            columns * rows <= u32::MAX,
        ensures
            t.wf(),
            t.spec_columns() == columns,
            t.spec_rows() == rows,
            t.spec_sheet() == sheet,
            forall|k: int| 0 <= k < t.cells().len() ==> t.cells()[k] == EMPTY,
    {
        let n = (columns * rows) as usize;
        let mut tiles: Vec<u32> = Vec::new();
        let mut k: usize = 0;
        while k < n
            invariant
                k <= n,
                tiles.len() == k,
                forall|m: int| 0 <= m < k ==> tiles@[m] == EMPTY,
            decreases n - k,
        {
            tiles.push(EMPTY);
            k = k + 1;
        }
        Tilemap { columns, rows, sheet, tiles }
    }

    /// The map dimensions in tiles, `(columns, rows)`.
    pub fn dimensions(&self) -> (d: (u32, u32))
        ensures
            d.0 == self.spec_columns(),
            d.1 == self.spec_rows(),
    {
        (self.columns, self.rows)
    }

    /// The sprite sheet the tiles index.
    pub fn sheet(&self) -> (s: SpriteSheet)
        ensures
            s == self.spec_sheet(),
    {
        self.sheet
    }

    /// The frame index at `(col, row)`, or [`EMPTY`] if out of range or empty.
    pub fn tile(&self, col: u32, row: u32) -> (t: u32)
        requires
            self.wf(),
        ensures
            t == self.spec_tile(col as int, row as int),
    {
        if col < self.columns && row < self.rows {
            proof {
                lemma_cell_index(col as int, row as int, self.columns as int, self.rows as int);
            }
            self.tiles[(row * self.columns + col) as usize]
        } else {
            EMPTY
        }
    }

    /// Sets the frame index at `(col, row)` (use [`EMPTY`] to clear it).
    /// Out-of-range coordinates are ignored.
    pub fn set_tile(&mut self, col: u32, row: u32, index: u32)
        requires
            old(self).wf(),
        ensures
            final(self).wf(),
            final(self).spec_columns() == old(self).spec_columns(),
            final(self).spec_rows() == old(self).spec_rows(),
            final(self).spec_sheet() == old(self).spec_sheet(),
            col < old(self).spec_columns() && row < old(self).spec_rows() ==> final(self).cells()
                == old(self).cells().update(row * old(self).spec_columns() + col, index),
            !(col < old(self).spec_columns() && row < old(self).spec_rows()) ==> final(self).cells() == old(self).cells(),
    {
        if col >= self.columns || row >= self.rows {
            return;
        }
        proof {
            lemma_cell_index(col as int, row as int, self.columns as int, self.rows as int);
        }
        let k = (row * self.columns + col) as usize;
        self.tiles.set(k, index);
    }

    /// Replaces every tile from a row-major slice: cell `k` takes `indices[k]`
    /// where the slice has one, and the extra cells are left empty; entries
    /// past the last cell are ignored.
    pub fn fill(&mut self, indices: &[u32])
        requires
            old(self).wf(),
        ensures
            final(self).wf(),
            final(self).spec_columns() == old(self).spec_columns(),
            final(self).spec_rows() == old(self).spec_rows(),
            final(self).spec_sheet() == old(self).spec_sheet(),
            forall|k: int|
                0 <= k < old(self).cells().len() ==> #[trigger] final(self).cells()[k] == if k
                    < indices@.len() {
                    indices@[k]
                } else {
                    EMPTY
                },
    {
        let mut k: usize = 0;
        while k < self.tiles.len()
            invariant
                0 <= k <= self.tiles.len(),
                self.tiles.len() == old(self).cells().len(),
                old(self).wf(),
                self.columns == old(self).spec_columns(),
                self.rows == old(self).spec_rows(),
                self.sheet == old(self).spec_sheet(),
                forall|m: int|
                    0 <= m < k ==> #[trigger] self.tiles@[m] == if m < indices@.len() {
                        indices@[m]
                    } else {
                        EMPTY
                    },
            decreases self.tiles.len() - k,
        {
            let v = if k < indices.len() {
                indices[k]
            } else {
                EMPTY
            };
            self.tiles.set(k, v);
            k = k + 1;
        }
    }

    /// The non-empty tiles with their cells, in row-major order: one quad of
    /// the baked mesh each.
    pub fn occupied_tiles(&self) -> (quads: Vec<TileQuad>)
        requires
            self.wf(),
        ensures
            quads@ == occupied(self.spec_columns() as u32, self.cells()),
    {
        let mut quads: Vec<TileQuad> = Vec::new();
        let mut k: usize = 0;
        while k < self.tiles.len()
            invariant
                0 <= k <= self.tiles.len(),
                self.tiles.len() == self.columns * self.rows,
                quads@ == occupied(self.columns, self.tiles@.subrange(0, k as int)),
            decreases self.tiles.len() - k,
        {
            let ghost before = self.tiles@.subrange(0, k as int);
            let frame = self.tiles[k];
            assert(self.tiles@.subrange(0, k + 1).drop_last() =~= before);
            if frame != EMPTY {
                proof {
                    assert(self.columns > 0) by (nonlinear_arith)
                        requires k < self.columns * self.rows;
                    assert((k as int) / (self.columns as int) < self.rows) by (nonlinear_arith)
                        requires k < self.columns * self.rows, self.columns > 0;
                }
                let col = (k % (self.columns as usize)) as u32;
                let row = (k / (self.columns as usize)) as u32;
                quads.push(TileQuad { col, row, frame });
            }
            k = k + 1;
        }
        assert(self.tiles@.subrange(0, self.tiles.len() as int) =~= self.tiles@);
        quads
    }
}

/// Whether `q` shows frame `tiles[k]` at the column and row of flat cell `k`
/// of a grid with `columns` columns.
pub open spec fn shows_cell(q: TileQuad, columns: u32, tiles: Seq<u32>, k: int) -> bool {
    &&& q.col == k % (columns as int)
    &&& q.row == k / (columns as int)
    &&& q.frame == tiles[k]
}

/// Law: the quads of a row-major grid are in one-to-one correspondence with
/// its cells that hold a tile (any value but [`EMPTY`], frame 0 included):
/// every quad shows the frame of such a cell at that cell's column and row,
/// every such cell has a quad, and the quads come in strictly increasing
/// cell order, so no cell has two.
pub proof fn lemma_occupied_cells(columns: u32, tiles: Seq<u32>)
    requires
        columns > 0,
        tiles.len() <= u32::MAX,
    ensures
        forall|j: int|
            #![trigger occupied(columns, tiles)[j]]
            0 <= j < occupied(columns, tiles).len() ==> exists|k: int|
                0 <= k < tiles.len() && #[trigger] tiles[k] != u32::MAX && shows_cell(
                    occupied(columns, tiles)[j],
                    columns,
                    tiles,
                    k,
                ),
        forall|k: int|
            0 <= k < tiles.len() && #[trigger] tiles[k] != u32::MAX ==> exists|j: int|
                0 <= j < occupied(columns, tiles).len() && shows_cell(
                    #[trigger] occupied(columns, tiles)[j],
                    columns,
                    tiles,
                    k,
                ),
        forall|j1: int, j2: int|
            0 <= j1 < j2 < occupied(columns, tiles).len() ==> #[trigger] occupied(columns, tiles)[j1].row
                * columns + occupied(columns, tiles)[j1].col < #[trigger] occupied(columns, tiles)[j2].row
                * columns + occupied(columns, tiles)[j2].col,
{
    lemma_occupied_sound(columns, tiles);
    lemma_occupied_complete(columns, tiles);
}

/// Flat cell `k` sits at column `k % columns` of row `k / columns`.
proof fn lemma_cell_split(columns: u32, k: int)
    requires
        columns > 0,
        0 <= k <= u32::MAX,
    ensures
        (k / columns as int) * columns + k % (columns as int) == k,
        0 <= k % (columns as int) < columns,
        0 <= k / (columns as int) <= k,
{
    vstd::arithmetic::div_mod::lemma_fundamental_div_mod(k, columns as int);
    vstd::arithmetic::mul::lemma_mul_is_commutative(k / columns as int, columns as int);
    vstd::arithmetic::div_mod::lemma_div_pos_is_pos(k, columns as int);
    vstd::arithmetic::div_mod::lemma_div_is_ordered_by_denominator(k, 1, columns as int);
}

/// Every quad shows a cell that holds a tile, and the quads' cells strictly
/// increase.
proof fn lemma_occupied_sound(columns: u32, tiles: Seq<u32>)
    requires
        columns > 0,
        tiles.len() <= u32::MAX,
    ensures
        forall|j: int|
            #![trigger occupied(columns, tiles)[j]]
            0 <= j < occupied(columns, tiles).len() ==> exists|k: int|
                0 <= k < tiles.len() && #[trigger] tiles[k] != u32::MAX && shows_cell(
                    occupied(columns, tiles)[j],
                    columns,
                    tiles,
                    k,
                ) && occupied(columns, tiles)[j].row * columns + occupied(columns, tiles)[j].col == k,
        forall|j1: int, j2: int|
            0 <= j1 < j2 < occupied(columns, tiles).len() ==> #[trigger] occupied(columns, tiles)[j1].row
                * columns + occupied(columns, tiles)[j1].col < #[trigger] occupied(columns, tiles)[j2].row
                * columns + occupied(columns, tiles)[j2].col,
    decreases tiles.len(),
{
    if tiles.len() > 0 {
        let occ = occupied(columns, tiles);
        let p = tiles.drop_last();
        let rest = occupied(columns, p);
        let n = tiles.len() - 1;
        lemma_occupied_sound(columns, p);
        assert forall|j: int| #![trigger rest[j]] 0 <= j < rest.len() implies exists|k: int|
            0 <= k < n && #[trigger] tiles[k] != u32::MAX && shows_cell(rest[j], columns, tiles, k) && rest[j].row
                * columns + rest[j].col == k by {
            let k = choose|k: int|
                0 <= k < p.len() && #[trigger] p[k] != u32::MAX && shows_cell(rest[j], columns, p, k) && rest[j].row
                    * columns + rest[j].col == k;
            assert(tiles[k] == p[k]);
        }
        if tiles[n] != u32::MAX {
            lemma_cell_split(columns, n);
            let q = quad_at(columns, n, tiles[n]);
            assert(occ == rest.push(q));
            assert(q.row * columns + q.col == n);
            assert forall|j: int| #![trigger occ[j]] 0 <= j < occ.len() implies exists|k: int|
                0 <= k < tiles.len() && #[trigger] tiles[k] != u32::MAX && shows_cell(occ[j], columns, tiles, k)
                    && occ[j].row * columns + occ[j].col == k by {
                if j < rest.len() {
                    assert(occ[j] == rest[j]);
                } else {
                    assert(occ[j] == q);
                    assert(tiles[n] != u32::MAX);
                }
            }
            assert forall|j1: int, j2: int| 0 <= j1 < j2 < occ.len() implies #[trigger] occ[j1].row * columns
                + occ[j1].col < #[trigger] occ[j2].row * columns + occ[j2].col by {
                assert(occ[j1] == rest[j1]);
                if j2 < rest.len() {
                    assert(occ[j2] == rest[j2]);
                } else {
                    assert(occ[j2] == q);
                    assert(rest[j1] == rest[j1]);
                }
            }
        } else {
            assert(occ == rest);
        }
    }
}

/// Every cell that holds a tile has a quad.
proof fn lemma_occupied_complete(columns: u32, tiles: Seq<u32>)
    requires
        columns > 0,
        tiles.len() <= u32::MAX,
    ensures
        forall|k: int|
            0 <= k < tiles.len() && #[trigger] tiles[k] != u32::MAX ==> exists|j: int|
                0 <= j < occupied(columns, tiles).len() && shows_cell(
                    #[trigger] occupied(columns, tiles)[j],
                    columns,
                    tiles,
                    k,
                ),
    decreases tiles.len(),
{
    if tiles.len() > 0 {
        let occ = occupied(columns, tiles);
        let p = tiles.drop_last();
        let rest = occupied(columns, p);
        let n = tiles.len() - 1;
        lemma_occupied_complete(columns, p);
        assert forall|k: int| 0 <= k < tiles.len() && #[trigger] tiles[k] != u32::MAX implies exists|j: int|
            0 <= j < occ.len() && shows_cell(#[trigger] occ[j], columns, tiles, k) by {
            if k < n {
                assert(p[k] == tiles[k]);
                let j = choose|j: int| 0 <= j < rest.len() && shows_cell(#[trigger] rest[j], columns, p, k);
                if tiles[n] != u32::MAX {
                    assert(occ == rest.push(quad_at(columns, n, tiles[n])));
                } else {
                    assert(occ == rest);
                }
                assert(occ[j] == rest[j]);
            } else {
                lemma_cell_split(columns, n);
                assert(occ == rest.push(quad_at(columns, n, tiles[n])));
                assert(occ[rest.len() as int] == quad_at(columns, n, tiles[n]));
            }
        }
    }
}

/// Law: reading a cell after writing it gives the written frame, and every
/// other cell keeps its tile.
pub proof fn lemma_set_then_get(t: Tilemap, col: u32, row: u32, index: u32, c: int, r: int)
    requires
        t.wf(),
        col < t.spec_columns(),
        row < t.spec_rows(),
    ensures
        ({
            let cells = t.cells().update(row * t.spec_columns() + col, index);
            let w = t.spec_columns() as int;
            let h = t.spec_rows() as int;
            &&& (if 0 <= c < w && 0 <= r < h { cells[r * w + c] } else { EMPTY }) == if c == col
                && r == row {
                index
            } else {
                t.spec_tile(c, r)
            }
        }),
{
    let w = t.spec_columns() as int;
    let h = t.spec_rows() as int;
    lemma_cell_index(col as int, row as int, w, h);
    if 0 <= c < w && 0 <= r < h {
        lemma_cell_index(c, r, w, h);
        if !(c == col && r == row) {
            lemma_cell_index_injective(c, r, col as int, row as int, w);
        }
    }
}

/// The flat index of an in-range cell lies in the grid.
proof fn lemma_cell_index(col: int, row: int, columns: int, rows: int)
    requires
        0 <= col < columns,
        0 <= row < rows,
    ensures
        0 <= row * columns + col < columns * rows,
{
    assert(0 <= row * columns + col < columns * rows) by (nonlinear_arith)
        requires 0 <= col < columns, 0 <= row < rows;
}

/// Distinct in-range cells have distinct flat indices.
proof fn lemma_cell_index_injective(c1: int, r1: int, c2: int, r2: int, columns: int)
    requires
        0 <= c1 < columns,
        0 <= c2 < columns,
        0 <= r1,
        0 <= r2,
        !(c1 == c2 && r1 == r2),
    ensures
        r1 * columns + c1 != r2 * columns + c2,
{
    if r1 == r2 {
    } else if r1 < r2 {
        assert(r1 * columns + c1 < r2 * columns + c2) by (nonlinear_arith)
            requires r1 < r2, 0 <= c1 < columns, 0 <= c2;
    } else {
        assert(r2 * columns + c2 < r1 * columns + c1) by (nonlinear_arith)
            requires r2 < r1, 0 <= c2 < columns, 0 <= c1;
    }
}

/// The faces of the baked mesh: quad `k` uses vertices `4k .. 4k + 3` (the
/// base index truncated to the 16-bit vertex index type) as the triangles
/// `[b, b+1, b+2]` and `[b, b+2, b+3]`. An empty map gets one degenerate
/// triangle `[0, 0, 0]` over a single vertex, since a mesh may not be empty.
pub open spec fn quad_face(k: int, second: bool) -> [u16; 3] {
    let b = (4 * k) % 0x10000;
    if !second {
        [b as u16, (b + 1) as u16, (b + 2) as u16]
    } else {
        [b as u16, (b + 2) as u16, (b + 3) as u16]
    }
}

/// The faces of the baked mesh for `quad_count` non-empty tiles (see [`quad_face`]).
#[verifier::spinoff_prover]
pub fn quad_faces(quad_count: usize) -> (faces: Vec<[u16; 3]>)
    requires
        quad_count * 2 <= usize::MAX,
    ensures
        quad_count == 0 ==> faces@ == seq![[0u16, 0u16, 0u16]],
        quad_count > 0 ==> faces.len() == 2 * quad_count,
        quad_count > 0 ==> forall|k: int|
            0 <= k < quad_count ==> #[trigger] faces@[2 * k] == quad_face(k, false) && faces@[2
                * k + 1] == quad_face(k, true),
{
    let mut faces: Vec<[u16; 3]> = Vec::new();
    if quad_count == 0 {
        faces.push([0, 0, 0]);
        return faces;
    }
    let mut k: usize = 0;
    let mut base: u16 = 0;
    while k < quad_count
        invariant
            0 <= k <= quad_count,
            quad_count * 2 <= usize::MAX,
            base == (4 * k) % 0x10000,
            faces.len() == 2 * k,
            forall|m: int|
                0 <= m < k ==> #[trigger] faces@[2 * m] == quad_face(m, false) && faces@[2 * m
                    + 1] == quad_face(m, true),
        decreases quad_count - k,
    {
        proof {
            assert(base % 4 == 0) by (nonlinear_arith)
                requires base == (4 * k) % 0x10000;
            assert(base <= 0xfffc);
        }
        let ghost before = faces@;
        faces.push([base, base + 1, base + 2]);
        faces.push([base, base + 2, base + 3]);
        proof {
            assert(faces@[2 * k as int] == quad_face(k as int, false));
            assert(faces@[2 * k + 1] == quad_face(k as int, true));
            assert((4 * (k + 1)) % 0x10000 == if base == 0xfffc {
                0
            } else {
                base + 4
            }) by (nonlinear_arith)
                requires base == (4 * k) % 0x10000, base <= 0xfffc;
        }
        base = if base == 0xfffc {
            0
        } else {
            base + 4
        };
        let ghost last = k as int;
        k = k + 1;
        proof {
            assert forall|m: int| 0 <= m < k implies #[trigger] faces@[2 * m] == quad_face(m, false)
                && faces@[2 * m + 1] == quad_face(m, true) by {
                if m < last {
                    assert(2 * m + 1 < before.len());
                    assert(faces@[2 * m] == before[2 * m]);
                    assert(faces@[2 * m + 1] == before[2 * m + 1]);
                } else {
                    assert(m == last);
                }
            }
        }
    }
    faces
}

} // verus!
