use wildforge::inventory::{Inventory, ItemStack};
use wildforge::registry::ItemId;

fn stack(item: u16, count: u32) -> Option<ItemStack> {
    Some(ItemStack { item: ItemId(item), count, durability: 0, arcane_id: 0 })
}

#[test]
fn a_cost_repeating_an_item_is_paid_in_full_or_not_at_all() {
    let mut inv = Inventory::new();
    inv.slots[0] = stack(1, 4);
    let cost = [(ItemId(1), 3), (ItemId(1), 3)];
    assert!(!inv.can_afford(&cost));
    assert!(!inv.try_consume(&cost));
    assert_eq!(inv.slots[0], stack(1, 4));
    inv.slots[5] = stack(1, 2);
    assert!(inv.try_consume(&cost));
    assert_eq!(inv.count_of(ItemId(1)), 0);
}

#[test]
fn consumption_takes_from_slots_in_order() {
    let mut inv = Inventory::new();
    inv.slots[0] = stack(1, 2);
    inv.slots[1] = stack(2, 5);
    inv.slots[2] = stack(1, 6);
    assert!(inv.try_consume(&[(ItemId(1), 5), (ItemId(2), 1)]));
    assert_eq!(inv.slots[0], None);
    assert_eq!(inv.slots[1], stack(2, 4));
    assert_eq!(inv.slots[2], stack(1, 3));
    assert!(!inv.try_consume(&[(ItemId(2), 5)]));
    assert_eq!(inv.slots[1], stack(2, 4));
}
