//! The plain state of mobs, projectiles and humanoid dress that the
//! simulation and the renderer exchange.

use vstd::prelude::*;

verus! {

/// What a mob is doing.
#[derive(Clone, Copy, PartialEq, Eq, Debug, Structural)]
pub enum MobState {
    Idle,
    Wander,
    Flee,
    /// Hostiles only: chase and attack the player.
    Hunt,
    /// Hungry: walking to a plant meal. The raid never climbs, so a one-high
    /// wall turns a grazer.
    Graze,
    /// A hungry predator closing on quarry (a mob, not a player).
    Stalk,
}

/// What a projectile struck this tick.
#[derive(Clone, Copy, PartialEq, Eq, Debug, Structural)]
pub enum ProjHit {
    /// Still flying.
    Flying,
    Expired,
    Block,
    /// Index into the player list.
    Player(usize),
    /// Index into the world's mobs.
    Mob(usize),
}

/// Which tiles and shapes dress a humanoid, resolved from a player's style.
#[derive(Clone, Copy, PartialEq, Eq, Debug, Structural)]
pub struct HumanoidArt {
    pub skin: u16,
    pub face: u16,
    /// `None` is bald; otherwise the side-shell tile for the length.
    pub hair: Option<u16>,
    /// The shell's front (fringe) tile, short even when hair is long.
    pub hair_front: u16,
    pub hair_top: u16,
    /// `None` is clean-shaven; otherwise a face-band tile.
    pub beard: Option<u16>,
    pub shirt: u16,
    pub trousers: u16,
    pub boot: u16,
    /// Long hair adds a back panel to the collar.
    pub long_hair: bool,
    /// A knee-length skirt over leggings instead of bare trousers.
    pub skirt: bool,
    /// 0 slight, 1 standard, 2 broad: shoulder and arm width.
    pub build: u8,
}

/// What, if anything, a humanoid holds in its right hand.
#[derive(Clone, Copy, Debug)]
pub enum HeldArt {
    /// Nothing in hand.
    Nothing,
    /// A placeable block: a mini cube with the block's face tiles.
    Cube([u16; 6]),
    /// Anything else: the item's icon as a small sprite.
    Sprite(u16),
    /// Four visibly separate wand materials. `focus_shape` changes geometry,
    /// so the focus stays readable without color vision.
    Wand { body: u16, reservoir: u16, focus: u16, binding: u16, focus_shape: u8, charge_band: u8 },
}

} // verus!
