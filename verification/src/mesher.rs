//! The immutable neighbourhood that chunk meshing reads off the render
//! thread: the eight neighbouring chunks contribute a one-cell halo of 68
//! border columns around the 16 x 16 chunk.

use vstd::prelude::*;
use crate::planet::ChunkPos;

verus! {

/// Number of halo columns around one chunk: two rows of 18 and two of 16.
pub const BORDER_COLUMNS: usize = 68;

/// Block id of air.
pub const AIR_BLOCK: u16 = 0;

/// One halo cell: its block and the light it carries.
#[derive(Clone, Copy, Debug)]
pub struct MeshBorderCell {
    pub block: u16,
    pub block_light: [u8; 3],
    pub sky_light: u8,
}

/// The empty cell: air, unlit.
pub open spec fn spec_dark_cell() -> MeshBorderCell {
    MeshBorderCell { block: AIR_BLOCK, block_light: [0u8, 0u8, 0u8], sky_light: 0 }
}

/// Which halo column a chunk-local column `(lx, lz)` is, if any: the row
/// below (`lz == -1`), the row above (`lz == 16`), then the left and right
/// edges between them.
pub open spec fn spec_border_column(lx: int, lz: int) -> Option<int> {
    if -1 <= lx <= 16 && lz == -1 {
        Some(lx + 1)
    } else if -1 <= lx <= 16 && lz == 16 {
        Some(18 + lx + 1)
    } else if lx == -1 && 0 <= lz <= 15 {
        Some(36 + lz)
    } else if lx == 16 && 0 <= lz <= 15 {
        Some(52 + lz)
    } else {
        None
    }
}

/// The cells of one neighbouring column, bottom to top, keyed by its
/// chunk-local position.
#[derive(Clone, Debug)]
pub struct BorderColumn {
    pub lx: i32,
    pub lz: i32,
    pub cells: Vec<MeshBorderCell>,
}

/// What halo column `c` holds at height `y` after the given columns were
/// captured in order: the last column that lands on `c` with a full height
/// of cells, or the dark cell.
pub open spec fn spec_captured(
    cols: Seq<(int, int, Seq<MeshBorderCell>)>,
    height: int,
    c: int,
    y: int,
) -> MeshBorderCell
    decreases cols.len(),
{
    if cols.len() == 0 {
        spec_dark_cell()
    } else {
        let last = cols.last();
        if spec_border_column(last.0, last.1) == Some(c) && last.2.len() == height {
            last.2[y]
        } else {
            spec_captured(cols.drop_last(), height, c, y)
        }
    }
}

/// Plain view of the supplied columns.
pub open spec fn column_views(cols: Seq<BorderColumn>) -> Seq<(int, int, Seq<MeshBorderCell>)> {
    cols.map_values(|col: BorderColumn| (col.lx as int, col.lz as int, col.cells@))
}

/// A snapshot of one chunk's halo.
pub struct ChunkMeshInput {
    pos: ChunkPos,
    height: usize,
    border: Vec<Vec<MeshBorderCell>>,
}

impl ChunkMeshInput {
    pub closed spec fn spec_pos(&self) -> ChunkPos {
        self.pos
    }

    pub closed spec fn spec_height(&self) -> int {
        self.height as int
    }

    /// The cell of halo column `c` at height `y`.
    pub closed spec fn cell(&self, c: int, y: int) -> MeshBorderCell {
        self.border@[c]@[y]
    }

    /// Every halo column holds `height` cells.
    pub closed spec fn inv(&self) -> bool {
        &&& self.border@.len() == BORDER_COLUMNS
        &&& forall|c: int| 0 <= c < BORDER_COLUMNS ==> #[trigger] self.border@[c]@.len() == self.height
    }

    /// Which halo column a chunk-local column is.
    pub fn border_column(lx: i32, lz: i32) -> (r: Option<usize>)
        ensures
            match r {
                Some(c) => spec_border_column(lx as int, lz as int) == Some(c as int),
                None => spec_border_column(lx as int, lz as int) is None,
            },
    {
        if -1 <= lx && lx <= 16 && lz == -1 {
            Some((lx + 1) as usize)
        } else if -1 <= lx && lx <= 16 && lz == 16 {
            Some(18 + (lx + 1) as usize)
        } else if lx == -1 && 0 <= lz && lz <= 15 {
            Some(36 + lz as usize)
        } else if lx == 16 && 0 <= lz && lz <= 15 {
            Some(52 + lz as usize)
        } else {
            None
        }
    }

    /// Capture a chunk's halo from the neighbouring columns that could be
    /// read, in visiting order; a column off the halo or without a full
    /// height of cells is skipped, and a column never supplied stays dark.
    pub fn capture(pos: ChunkPos, height: usize, columns: &Vec<BorderColumn>) -> (r: ChunkMeshInput)
        ensures
            r.inv(),
            r.spec_pos() == pos,
            r.spec_height() == height,
            forall|c: int, y: int|
                0 <= c < BORDER_COLUMNS && 0 <= y < height ==> #[trigger] r.cell(c, y)
                    == spec_captured(column_views(columns@), height as int, c, y),
    {
        let mut border: Vec<Vec<MeshBorderCell>> = Vec::new();
        let dark = MeshBorderCell { block: AIR_BLOCK, block_light: [0u8, 0u8, 0u8], sky_light: 0 };
        let mut c: usize = 0;
        while c < BORDER_COLUMNS
            invariant
                c <= BORDER_COLUMNS,
                border@.len() == c,
                dark == spec_dark_cell(),
                forall|k: int| 0 <= k < c ==> #[trigger] border@[k]@.len() == height,
                forall|k: int, y: int|
                    0 <= k < c && 0 <= y < height ==> #[trigger] border@[k]@[y] == spec_dark_cell(),
            decreases BORDER_COLUMNS - c,
        {
            let mut col: Vec<MeshBorderCell> = Vec::new();
            let mut y: usize = 0;
            while y < height
                invariant
                    y <= height,
                    col@.len() == y,
                    dark == spec_dark_cell(),
                    forall|j: int| 0 <= j < y ==> #[trigger] col@[j] == spec_dark_cell(),
                decreases height - y,
            {
                col.push(dark);
                y = y + 1;
            }
            border.push(col);
            c = c + 1;
        }
        let ghost views = column_views(columns@);
        let mut i: usize = 0;
        while i < columns.len()
            invariant
                i <= columns.len(),
                views == column_views(columns@),
                border@.len() == BORDER_COLUMNS,
                forall|k: int| 0 <= k < BORDER_COLUMNS ==> #[trigger] border@[k]@.len() == height,
                forall|k: int, y: int|
                    0 <= k < BORDER_COLUMNS && 0 <= y < height ==> #[trigger] border@[k]@[y]
                        == spec_captured(views.take(i as int), height as int, k, y),
            decreases columns.len() - i,
        {
            let column = &columns[i];
            let slot = Self::border_column(column.lx, column.lz);
            proof {
                assert(views.take(i as int + 1).drop_last() =~= views.take(i as int));
                assert(views.take(i as int + 1).last() == views[i as int]);
            }
            match slot {
                Some(s) => {
                    if column.cells.len() == height {
                        let mut fresh: Vec<MeshBorderCell> = Vec::new();
                        let mut y: usize = 0;
                        while y < height
                            invariant
                                y <= height,
                                column.cells@.len() == height,
                                fresh@.len() == y,
                                forall|j: int| 0 <= j < y ==> #[trigger] fresh@[j] == column.cells@[j],
                            decreases height - y,
                        {
                            fresh.push(column.cells[y]);
                            y = y + 1;
                        }
                        border.set(s, fresh);
                    }
                },
                None => {},
            }
            i = i + 1;
        }
        assert(views.take(columns.len() as int) =~= views);
        ChunkMeshInput { pos, height, border }
    }

    /// The chunk this halo surrounds.
    pub fn position(&self) -> (r: ChunkPos)
        ensures
            r == self.spec_pos(),
    {
        self.pos
    }

    /// The block at a chunk-local halo cell; air off the halo.
    pub fn block_at(&self, lx: i32, y: usize, lz: i32) -> (r: u16)
        requires
            self.inv(),
            y < self.spec_height(),
        ensures
            r == match spec_border_column(lx as int, lz as int) {
                Some(c) => self.cell(c, y as int).block,
                None => AIR_BLOCK,
            },
    {
        match Self::border_column(lx, lz) {
            Some(c) => self.border[c][y].block,
            None => AIR_BLOCK,
        }
    }

    /// The block and sky light at a chunk-local halo cell; dark off the halo.
    pub fn light_at(&self, lx: i32, y: usize, lz: i32) -> (r: ([u8; 3], u8))
        requires
            self.inv(),
            y < self.spec_height(),
        ensures
            r == match spec_border_column(lx as int, lz as int) {
                Some(c) => (self.cell(c, y as int).block_light, self.cell(c, y as int).sky_light),
                None => ([0u8, 0u8, 0u8], 0u8),
            },
    {
        match Self::border_column(lx, lz) {
            Some(c) => {
                let cell = self.border[c][y];
                (cell.block_light, cell.sky_light)
            },
            None => ([0u8, 0u8, 0u8], 0u8),
        }
    }
}

/// Distinct chunk-local columns land on distinct halo columns, all of them
/// inside `0..68`.
pub proof fn lemma_border_columns_distinct(ax: int, az: int, bx: int, bz: int)
    requires
        spec_border_column(ax, az) is Some,
        spec_border_column(ax, az) == spec_border_column(bx, bz),
    ensures
        ax == bx && az == bz,
        0 <= spec_border_column(ax, az)->0 < BORDER_COLUMNS,
{
}

} // verus!
