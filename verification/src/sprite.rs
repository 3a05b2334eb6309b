//! Sprite-sheet frame layout and the fixed topology of 9-slice sprites.

use vstd::prelude::*;

verus! {

/// A regular grid of equally-sized frames packed into one texture.
///
/// Frames are numbered left-to-right, top-to-bottom starting at 0.
#[derive(Copy, Clone, Debug, PartialEq, Eq, Structural)]
pub struct SpriteSheet {
    /// Number of frame columns across the texture.
    pub columns: u32,
    /// Number of frame rows down the texture.
    pub rows: u32,
}

impl SpriteSheet {
    /// The number of frames of the sheet, as a mathematical integer.
    pub open spec fn frame_count(self) -> int {
        self.columns * self.rows
    }

    /// The `(column, row)` cell that frame `index` occupies, wrapping past the
    /// last frame.
    pub open spec fn cell_of(self, index: int) -> (int, int) {
        let i = index % self.frame_count();
        (i % (self.columns as int), i / (self.columns as int))
    }

    /// A sheet with `columns` x `rows` equally-sized frames.
    pub fn new(columns: u32, rows: u32) -> (sheet: SpriteSheet)
        requires
            columns > 0,
            rows > 0,
        ensures
            sheet.columns == columns,
            sheet.rows == rows,
    {
        SpriteSheet { columns, rows }
    }

    /// The total number of frames in the sheet.
    pub fn len(&self) -> (n: u32)
        requires
            self.frame_count() <= u32::MAX,
        ensures
            n == self.frame_count(),
    {
        self.columns * self.rows
    }

    /// Whether the sheet has no frames (never true for a sheet built with [`Self::new`]).
    pub fn is_empty(&self) -> (b: bool)
        ensures
            b <==> self.frame_count() == 0,
    {
        proof {
            assert((self.columns == 0 || self.rows == 0) <==> self.columns * self.rows == 0) by (nonlinear_arith);
        }
        self.columns == 0 || self.rows == 0
    }

    /// The `(column, row)` cell of frame `index`, wrapping past the last frame.
    /// The UV rectangle of the frame is this cell scaled by the cell size.
    pub fn frame_cell(&self, index: u32) -> (cell: (u32, u32))
        requires
            0 < self.frame_count() <= u32::MAX,
        ensures
            cell.0 == self.cell_of(index as int).0,
            cell.1 == self.cell_of(index as int).1,
            cell.0 < self.columns,
            cell.1 < self.rows,
    {
        let n = self.len();
        let i = index % n;
        let col = i % self.columns;
        let row = i / self.columns;
        proof {
            let c = self.columns as int;
            let r = self.rows as int;
            let ii = i as int;
            assert(ii < c * r);
            assert(ii / c < r) by (nonlinear_arith)
                requires ii < c * r, c > 0, 0 <= ii;
        }
        (col, row)
    }
}

/// The two triangles of cell `(i, j)` (column `i`, row `j`) of a 3x3 grid of
/// quads over a 4x4 grid of vertices numbered row by row.
pub open spec fn nine_slice_face(i: int, j: int, second: bool) -> [u16; 3] {
    let tl = j * 4 + i;
    let tr = tl + 1;
    let bl = tl + 4;
    let br = bl + 1;
    if !second {
        [tl as u16, bl as u16, br as u16]
    } else {
        [tl as u16, br as u16, tr as u16]
    }
}

/// The 18 faces of a 9-slice sprite: two triangles per cell of the 3x3 grid,
/// cells in row-major order.
pub fn nine_slice_faces() -> (faces: Vec<[u16; 3]>)
    ensures
        faces.len() == 18,
        forall|j: int, i: int|
            0 <= j < 3 && 0 <= i < 3 ==> faces@[2 * (j * 3 + i)] == nine_slice_face(i, j, false)
                && faces@[2 * (j * 3 + i) + 1] == nine_slice_face(i, j, true),
{
    let mut faces: Vec<[u16; 3]> = Vec::new();
    let mut j: u16 = 0;
    while j < 3
        invariant
            j <= 3,
            faces.len() == 6 * j,
            forall|jj: int, i: int|
                0 <= jj < j && 0 <= i < 3 ==> faces@[2 * (jj * 3 + i)] == nine_slice_face(
                    i,
                    jj,
                    false,
                ) && faces@[2 * (jj * 3 + i) + 1] == nine_slice_face(i, jj, true),
        decreases 3 - j,
    {
        let mut i: u16 = 0;
        while i < 3
            invariant
                i <= 3,
                j < 3,
                faces.len() == 6 * j + 2 * i,
                forall|jj: int, ii: int|
                    (0 <= jj < j && 0 <= ii < 3) || (jj == j && 0 <= ii < i) ==> faces@[2 * (jj
                        * 3 + ii)] == nine_slice_face(ii, jj, false) && faces@[2 * (jj * 3 + ii)
                        + 1] == nine_slice_face(ii, jj, true),
            decreases 3 - i,
        {
            let tl: u16 = j * 4 + i;
            let tr = tl + 1;
            let bl = tl + 4;
            let br = bl + 1;
            faces.push([tl, bl, br]);
            faces.push([tl, br, tr]);
            i = i + 1;
        }
        j = j + 1;
    }
    faces
}

/// Law: a sheet built with [`SpriteSheet::new`] is never empty, and every
/// frame index (wrapping past the last frame) names a cell of the grid.
pub proof fn lemma_new_sheet_frames(columns: u32, rows: u32, index: int)
    requires
        columns > 0,
        rows > 0,
        index >= 0,
    ensures
        (SpriteSheet { columns, rows }).frame_count() > 0,
        0 <= (SpriteSheet { columns, rows }).cell_of(index).0 < columns,
        0 <= (SpriteSheet { columns, rows }).cell_of(index).1 < rows,
{
    let c = columns as int;
    let r = rows as int;
    assert(c * r > 0) by (nonlinear_arith)
        requires c > 0, r > 0;
    let i = index % (c * r);
    assert(i / c < r) by (nonlinear_arith)
        requires 0 <= i < c * r, c > 0;
}

} // verus!
