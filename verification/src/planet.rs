//! Block and chunk coordinates on the cube-sphere planet.
//!
//! A block lives on one of the six cube faces at face-local column `(u, v)`
//! and height `y`. Chunks are 16 x 16 columns of one face.

use vstd::prelude::*;

verus! {

/// Blocks along one edge of a cube face.
pub const FACE_BLOCKS: u16 = 16384;
/// Half a face edge: world coordinates on the home face are centered on it.
pub const HALF_FACE: i32 = 8192;
/// Height of the world in blocks.
pub const WORLD_HEIGHT: i32 = 256;
/// Chunk edge along `u`.
pub const CHUNK_X: u16 = 16;
/// Chunk edge along `v`.
pub const CHUNK_Z: u16 = 16;

/// The six faces of the cube-sphere.
#[derive(Clone, Copy, PartialEq, Eq, Debug, Hash, Structural)]
pub enum Face {
    PosX,
    NegX,
    PosY,
    NegY,
    PosZ,
    NegZ,
}

/// One block: a face, a face-local column and a height.
#[derive(Clone, Copy, PartialEq, Eq, Debug, Hash, Structural)]
pub struct BlockPos {
    pub face: Face,
    pub u: u16,
    pub y: u8,
    pub v: u16,
}

/// One chunk column of a face.
#[derive(Clone, Copy, PartialEq, Eq, Debug, Hash, Structural)]
pub struct ChunkPos {
    pub face: Face,
    pub u: u16,
    pub v: u16,
}

/// A face-local column and height lies on the face.
pub open spec fn spec_on_face(u: int, y: int, v: int) -> bool {
    0 <= u < FACE_BLOCKS && 0 <= y < WORLD_HEIGHT && 0 <= v < FACE_BLOCKS
}

impl BlockPos {
    /// The block at face-local `(u, y, v)`, if it lies on the face.
    pub fn new(face: Face, u: u16, y: u8, v: u16) -> (r: Option<BlockPos>)
        ensures
            r == (if spec_on_face(u as int, y as int, v as int) {
                Some(BlockPos { face, u, y, v })
            } else {
                None
            }),
    {
        if u < FACE_BLOCKS && v < FACE_BLOCKS {
            Some(BlockPos { face, u, y, v })
        } else {
            None
        }
    }

    /// The block at world coordinates `(x, y, z)` of the home face, whose
    /// origin is the face's center column.
    pub fn of_world(x: i32, y: i32, z: i32) -> (r: Option<BlockPos>)
        ensures
            r == (if spec_on_face(x + HALF_FACE, y as int, z + HALF_FACE) {
                Some(BlockPos {
                    face: Face::PosZ,
                    u: (x + HALF_FACE) as u16,
                    y: y as u8,
                    v: (z + HALF_FACE) as u16,
                })
            } else {
                None
            }),
    {
        if -HALF_FACE <= x && x < HALF_FACE && 0 <= y && y < WORLD_HEIGHT && -HALF_FACE <= z
            && z < HALF_FACE {
            let u = x + HALF_FACE;
            let v = z + HALF_FACE;
            Some(BlockPos { face: Face::PosZ, u: u as u16, y: y as u8, v: v as u16 })
        } else {
            None
        }
    }

    /// The block `(du, dy, dv)` away on the same face, if it stays on it.
    pub fn offset(self, du: i32, dy: i32, dv: i32) -> (r: Option<BlockPos>)
        ensures
            r == (if spec_on_face(self.u + du, self.y + dy, self.v + dv) {
                Some(BlockPos {
                    face: self.face,
                    u: (self.u + du) as u16,
                    y: (self.y + dy) as u8,
                    v: (self.v + dv) as u16,
                })
            } else {
                None
            }),
    {
        let u = self.u as i64 + du as i64;
        let y = self.y as i64 + dy as i64;
        let v = self.v as i64 + dv as i64;
        if 0 <= u && u < FACE_BLOCKS as i64 && 0 <= y && y < WORLD_HEIGHT as i64 && 0 <= v && v
            < FACE_BLOCKS as i64 {
            Some(BlockPos { face: self.face, u: u as u16, y: y as u8, v: v as u16 })
        } else {
            None
        }
    }

    /// The chunk that holds this block.
    pub fn chunk(self) -> (r: ChunkPos)
        ensures
            r == spec_chunk_of(self),
    {
        ChunkPos { face: self.face, u: self.u / CHUNK_X, v: self.v / CHUNK_Z }
    }
}

pub open spec fn spec_chunk_of(p: BlockPos) -> ChunkPos {
    ChunkPos { face: p.face, u: (p.u / CHUNK_X) as u16, v: (p.v / CHUNK_Z) as u16 }
}

} // verus!
