//! The content definitions that the game logic reads: items and blocks with
//! their stacking, durability, weight and tracked material.

use vstd::prelude::*;
use crate::vector::MaterialVector;

verus! {

/// Index of an item definition in the registry.
#[derive(Clone, Copy, PartialEq, Eq, Debug, Hash, Structural)]
pub struct ItemId(pub u16);

/// Index of a block definition in the registry.
#[derive(Clone, Copy, PartialEq, Eq, Debug, Hash, Structural)]
pub struct BlockId(pub u16);

/// How a definition's material behaves in the finite economy.
#[derive(Clone, Copy, PartialEq, Eq, Debug, Structural)]
pub enum MaterialClass {
    Renewable,
    GeologicallyFinite,
    TransformativeFinite,
    Consumptive,
    Exceptional,
}

/// One item definition, as far as inventory and material accounting read it.
pub struct ItemDef {
    /// Qualified id, e.g. `base:copper_ingot`.
    pub name: String,
    pub max_stack: u32,
    /// Uses a fresh instance has; zero for anything that does not wear.
    pub durability: u32,
    /// Whether the item is a tool (tools never merge into stacks).
    pub tool: bool,
    /// Carry weight of one item in units.
    pub carry_weight: u32,
    /// What a worn-out instance becomes, if anything.
    pub broken_into: Option<ItemId>,
    /// Tracked material of one item.
    pub materials: MaterialVector,
    /// Whether the content declared its materials explicitly.
    pub materials_declared: bool,
    pub material_class: MaterialClass,
    /// Whether the item places a block.
    pub places: bool,
    /// Ammunition class this item serves, if any.
    pub ammo: Option<String>,
    /// Armor points when worn, if the item is armor.
    pub armor_points: Option<u32>,
}

/// One block definition, as far as material accounting reads it.
pub struct BlockDef {
    pub name: String,
    pub materials: MaterialVector,
    pub material_class: MaterialClass,
}

/// Loaded content: item and block definitions indexed by id.
pub struct Registry {
    pub items: Vec<ItemDef>,
    pub blocks: Vec<BlockDef>,
}

impl Registry {
    pub open spec fn valid_item(&self, id: ItemId) -> bool {
        (id.0 as int) < self.items@.len()
    }

    pub open spec fn spec_item(&self, id: ItemId) -> ItemDef {
        self.items@[id.0 as int]
    }

    /// The definition of `id`.
    pub fn item(&self, id: ItemId) -> (r: &ItemDef)
        requires
            self.valid_item(id),
        ensures
            *r == self.spec_item(id),
    {
        &self.items[id.0 as usize]
    }
}

} // verus!
