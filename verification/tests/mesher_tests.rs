use wildforge::mesher::{BorderColumn, ChunkMeshInput, MeshBorderCell, AIR_BLOCK};
use wildforge::planet::{ChunkPos, Face};

fn cell(block: u16, sky: u8) -> MeshBorderCell {
    MeshBorderCell { block, block_light: [1, 2, 3], sky_light: sky }
}

#[test]
fn border_columns_cover_the_halo_once() {
    assert_eq!(ChunkMeshInput::border_column(-1, -1), Some(0));
    assert_eq!(ChunkMeshInput::border_column(16, -1), Some(17));
    assert_eq!(ChunkMeshInput::border_column(-1, 16), Some(18));
    assert_eq!(ChunkMeshInput::border_column(16, 16), Some(35));
    assert_eq!(ChunkMeshInput::border_column(-1, 0), Some(36));
    assert_eq!(ChunkMeshInput::border_column(16, 15), Some(67));
    assert_eq!(ChunkMeshInput::border_column(3, 4), None);
    assert_eq!(ChunkMeshInput::border_column(17, 0), None);
    let mut seen = vec![false; 68];
    for lx in -1..=16 {
        for lz in -1..=16 {
            if let Some(c) = ChunkMeshInput::border_column(lx, lz) {
                assert!(!seen[c]);
                seen[c] = true;
            }
        }
    }
    assert!(seen.iter().all(|s| *s));
}

#[test]
fn capture_keeps_supplied_columns_and_darkens_the_rest() {
    let pos = ChunkPos { face: Face::PosY, u: 32, v: 48 };
    let columns = vec![
        BorderColumn { lx: -1, lz: 5, cells: vec![cell(7, 15), cell(9, 4)] },
        BorderColumn { lx: 4, lz: 4, cells: vec![cell(8, 1), cell(8, 1)] },
        BorderColumn { lx: 16, lz: 16, cells: vec![cell(3, 2)] },
    ];
    let input = ChunkMeshInput::capture(pos, 2, &columns);
    assert_eq!(input.position(), pos);
    assert_eq!(input.block_at(-1, 0, 5), 7);
    assert_eq!(input.block_at(-1, 1, 5), 9);
    assert_eq!(input.light_at(-1, 1, 5), ([1, 2, 3], 4));
    // Interior columns are not part of the halo.
    assert_eq!(input.block_at(4, 0, 4), AIR_BLOCK);
    // A column of the wrong height is skipped.
    assert_eq!(input.block_at(16, 0, 16), AIR_BLOCK);
    assert_eq!(input.light_at(16, 0, 16), ([0, 0, 0], 0));
}
