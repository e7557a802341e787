//! Stable identities of the point lights that the client's light director
//! promotes each frame, and the light-emitting blocks chunk meshing collects.

use vstd::prelude::*;
use crate::planet::{BlockPos, Face};

verus! {

/// Stable identity for a light across frames. Static emitters key on their
/// cell; dynamic lights on what they are.
#[derive(Clone, Copy, PartialEq, Eq, Hash, Debug, Structural)]
pub enum Key {
    Block(BlockPos),
    Held,
    Mob(u32),
    /// Another player's carried light, by player id.
    RemoteHeld(u32),
    /// A host-authored temporary working.
    Working(u64),
    /// Development demo hooks.
    Demo(u32),
}

/// A block that emits light, as collected during chunk meshing.
#[derive(Clone, Copy, Debug)]
pub struct Emitter {
    pub pos: BlockPos,
    /// Per-channel emission 0..15.
    pub rgb: [u8; 3],
    /// Peak level 0..15.
    pub emit: u8,
}

/// The index of a face in declaration order.
pub open spec fn spec_face_index(f: Face) -> u64 {
    match f {
        Face::PosX => 0,
        Face::NegX => 1,
        Face::PosY => 2,
        Face::NegY => 3,
        Face::PosZ => 4,
        Face::NegZ => 5,
    }
}

pub fn face_index(f: Face) -> (r: u64)
    ensures
        r == spec_face_index(f),
{
    match f {
        Face::PosX => 0,
        Face::NegX => 1,
        Face::PosY => 2,
        Face::NegY => 3,
        Face::PosZ => 4,
        Face::NegZ => 5,
    }
}

/// The cache key the renderer stores for `k`: a block packs its face, column
/// and height into disjoint bit fields; the top two bits tell the kinds of
/// dynamic light apart; a working's id keeps its low 61 bits.
pub open spec fn spec_key_bits(k: Key) -> u64 {
    match k {
        Key::Block(pos) => (spec_face_index(pos.face) << 48u64) | ((pos.u as u64) << 32u64) | ((pos.y as u64) << 16u64)
            | (pos.v as u64),
        Key::Held => 1u64 << 62u64,
        Key::Mob(id) => (2u64 << 62u64) | (id as u64),
        Key::RemoteHeld(id) => (3u64 << 62u64) | ((id as u64) << 20u64),
        Key::Working(id) => (3u64 << 62u64) | (1u64 << 61u64) | (id & 0x1fff_ffff_ffff_ffffu64),
        Key::Demo(id) => (3u64 << 62u64) | (id as u64),
    }
}

/// Pack a key into the `u64` the renderer caches on.
pub fn key_bits(k: Key) -> (r: u64)
    ensures
        r == spec_key_bits(k),
{
    match k {
        Key::Block(pos) => (face_index(pos.face) << 48u64) | ((pos.u as u64) << 32u64) | ((pos.y as u64) << 16u64)
            | (pos.v as u64),
        Key::Held => 1u64 << 62u64,
        Key::Mob(id) => (2u64 << 62u64) | (id as u64),
        Key::RemoteHeld(id) => (3u64 << 62u64) | ((id as u64) << 20u64),
        Key::Working(id) => (3u64 << 62u64) | (1u64 << 61u64) | (id & 0x1fff_ffff_ffff_ffffu64),
        Key::Demo(id) => (3u64 << 62u64) | (id as u64),
    }
}

/// Distinct blocks get distinct keys.
pub proof fn lemma_block_keys_distinct(a: BlockPos, b: BlockPos)
    requires
        a != b,
    ensures
        spec_key_bits(Key::Block(a)) != spec_key_bits(Key::Block(b)),
{
    let fa = spec_face_index(a.face);
    let fb = spec_face_index(b.face);
    let (ua, ya, va) = (a.u as u64, a.y as u64, a.v as u64);
    let (ub, yb, vb) = (b.u as u64, b.y as u64, b.v as u64);
    assert(fa < 8 && fb < 8);
    assert(ua < 0x10000 && ub < 0x10000 && ya < 0x100 && yb < 0x100 && va < 0x10000 && vb < 0x10000);
    assert(((fa << 48u64) | (ua << 32u64) | (ya << 16u64) | va) >> 48u64 == fa) by (bit_vector)
        requires
            fa < 8,
            ua < 0x10000,
            ya < 0x100,
            va < 0x10000,
    ;
    assert(((fb << 48u64) | (ub << 32u64) | (yb << 16u64) | vb) >> 48u64 == fb) by (bit_vector)
        requires
            fb < 8,
            ub < 0x10000,
            yb < 0x100,
            vb < 0x10000,
    ;
    assert((((fa << 48u64) | (ua << 32u64) | (ya << 16u64) | va) >> 32u64) & 0xffff == ua) by (bit_vector)
        requires
            fa < 8,
            ua < 0x10000,
            ya < 0x100,
            va < 0x10000,
    ;
    assert((((fb << 48u64) | (ub << 32u64) | (yb << 16u64) | vb) >> 32u64) & 0xffff == ub) by (bit_vector)
        requires
            fb < 8,
            ub < 0x10000,
            yb < 0x100,
            vb < 0x10000,
    ;
    assert((((fa << 48u64) | (ua << 32u64) | (ya << 16u64) | va) >> 16u64) & 0xffff == ya) by (bit_vector)
        requires
            fa < 8,
            ua < 0x10000,
            ya < 0x100,
            va < 0x10000,
    ;
    assert((((fb << 48u64) | (ub << 32u64) | (yb << 16u64) | vb) >> 16u64) & 0xffff == yb) by (bit_vector)
        requires
            fb < 8,
            ub < 0x10000,
            yb < 0x100,
            vb < 0x10000,
    ;
    assert(((fa << 48u64) | (ua << 32u64) | (ya << 16u64) | va) & 0xffff == va) by (bit_vector)
        requires
            fa < 8,
            ua < 0x10000,
            ya < 0x100,
            va < 0x10000,
    ;
    assert(((fb << 48u64) | (ub << 32u64) | (yb << 16u64) | vb) & 0xffff == vb) by (bit_vector)
        requires
            fb < 8,
            ub < 0x10000,
            yb < 0x100,
            vb < 0x10000,
    ;
    if a.face != b.face {
        assert(fa != fb);
    }
}

} // verus!
