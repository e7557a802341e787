//! Player inventory: 9 hotbar slots and 27 storage slots of item stacks.
//! Item properties come from the registry.

use vstd::prelude::*;
use crate::registry::{ItemId, Registry};

verus! {

pub const HOTBAR_SLOTS: usize = 9;
pub const STORAGE_SLOTS: usize = 27;
pub const TOTAL_SLOTS: usize = 36;

#[derive(Clone, Copy, PartialEq, Eq, Debug, Structural)]
pub struct ItemStack {
    pub item: ItemId,
    pub count: u32,
    /// Remaining uses for tools; 0 for everything else.
    pub durability: u32,
    /// Stable server-assigned identity of the corresponding Current account;
    /// zero means this instance carries no bound Current.
    pub arcane_id: u64,
}

/// Two stacks merge only if they hold the same item, it is not a tool, and
/// neither carries a stable instance identity.
pub open spec fn spec_can_merge(reg: &Registry, a: ItemStack, b: ItemStack) -> bool {
    a.item == b.item && !reg.spec_item(a.item).tool && a.arcane_id == 0 && b.arcane_id == 0
}

pub open spec fn spec_max_stack(reg: &Registry, item: ItemId) -> u32 {
    reg.spec_item(item).max_stack
}

pub open spec fn with_count(s: ItemStack, count: u32) -> ItemStack {
    ItemStack { count, ..s }
}

pub open spec fn opt_count(o: Option<ItemStack>) -> int {
    match o {
        Some(s) => s.count as int,
        None => 0,
    }
}

pub open spec fn opt_valid(reg: &Registry, o: Option<ItemStack>) -> bool {
    match o {
        Some(s) => reg.valid_item(s.item),
        None => true,
    }
}

/// What one UI click does to the slot `cur` and the cursor `held`: the new
/// slot content and the new cursor content.
pub open spec fn spec_click_stack(
    reg: &Registry,
    cur: Option<ItemStack>,
    held: Option<ItemStack>,
    right: bool,
) -> (Option<ItemStack>, Option<ItemStack>) {
    match (held, cur) {
        (Some(h), Some(s)) if !right && spec_can_merge(reg, s, h) => {
            let max = spec_max_stack(reg, s.item);
            let room = max - s.count;
            let move_n = if h.count < room { h.count as int } else { room as int };
            let slot = Some(with_count(s, (s.count + move_n) as u32));
            let left = if h.count > move_n {
                Some(with_count(h, (h.count - move_n) as u32))
            } else {
                None
            };
            (slot, left)
        },
        (Some(h), _) if !right => (Some(h), cur),
        (None, Some(s)) if !right => (None, Some(s)),
        (Some(h), _) => {
            let can_place = match cur {
                None => true,
                Some(s) => spec_can_merge(reg, s, h) && s.count < spec_max_stack(reg, s.item),
            };
            if can_place {
                let slot = Some(with_count(h, (opt_count(cur) + 1) as u32));
                let left = if h.count > 1 {
                    Some(with_count(h, (h.count - 1) as u32))
                } else {
                    None
                };
                (slot, left)
            } else {
                (cur, Some(h))
            }
        },
        (None, Some(s)) => {
            let take = (s.count + 1) / 2;
            let slot = if s.count > take {
                Some(with_count(s, (s.count - take) as u32))
            } else {
                None
            };
            (slot, Some(with_count(s, take as u32)))
        },
        (None, None) => (None, None),
    }
}

/// The inputs on which a click is defined: every item is registered and a
/// merge never starts from an over-full slot.
pub open spec fn click_defined(
    reg: &Registry,
    cur: Option<ItemStack>,
    held: Option<ItemStack>,
    right: bool,
) -> bool {
    &&& opt_valid(reg, cur)
    &&& opt_valid(reg, held)
    &&& match (held, cur) {
        (Some(h), Some(s)) => !right && spec_can_merge(reg, s, h) ==> s.count <= spec_max_stack(
            reg,
            s.item,
        ),
        _ => true,
    }
}

impl ItemStack {
    pub fn new(reg: &Registry, item: ItemId, count: u32) -> (r: ItemStack)
        requires
            reg.valid_item(item),
        ensures
            r == (ItemStack {
                item,
                count,
                durability: reg.spec_item(item).durability,
                arcane_id: 0,
            }),
    {
        ItemStack { item, count, durability: reg.item(item).durability, arcane_id: 0 }
    }

    /// Stacks merge only if same item, neither is a tool, and neither carries
    /// stable instance state. An identity names one physical object and may
    /// never be copied into a larger count by an inventory convenience path.
    pub fn can_merge(&self, reg: &Registry, other: &ItemStack) -> (r: bool)
        requires
            reg.valid_item(self.item),
        ensures
            r == spec_can_merge(reg, *self, *other),
    {
        self.item == other.item && !reg.item(self.item).tool && self.arcane_id == 0
            && other.arcane_id == 0
    }
}

/// One UI click on a slot holding `cur` with `held` on the cursor.
pub fn click_stack(
    reg: &Registry,
    cur: Option<ItemStack>,
    held: Option<ItemStack>,
    right: bool,
) -> (r: (Option<ItemStack>, Option<ItemStack>))
    requires
        click_defined(reg, cur, held, right),
    ensures
        r == spec_click_stack(reg, cur, held, right),
{
    match (held, cur, right) {
        (Some(held), Some(s), false) if s.can_merge(reg, &held) => {
            let max = reg.item(s.item).max_stack;
            let room = max - s.count;
            let move_n = if held.count < room {
                held.count
            } else {
                room
            };
            let slot = Some(ItemStack { count: s.count + move_n, ..s });
            let held = if held.count > move_n {
                Some(ItemStack { count: held.count - move_n, ..held })
            } else {
                None
            };
            (slot, held)
        },
        (Some(held), other, false) => (Some(held), other),
        (None, Some(s), false) => (None, Some(s)),
        (Some(held), cur, true) => {
            let can_place = match cur {
                None => true,
                Some(s) => s.can_merge(reg, &held) && s.count < reg.item(s.item).max_stack,
            };
            if can_place {
                let count = match cur {
                    Some(s) => s.count + 1,
                    None => 1,
                };
                let slot = Some(ItemStack { count, ..held });
                let held = if held.count > 1 {
                    Some(ItemStack { count: held.count - 1, ..held })
                } else {
                    None
                };
                (slot, held)
            } else {
                (cur, Some(held))
            }
        },
        (None, Some(s), true) => {
            let take = s.count / 2 + s.count % 2;
            let slot = if s.count > take {
                Some(ItemStack { count: s.count - take, ..s })
            } else {
                None
            };
            (slot, Some(ItemStack { count: take, ..s }))
        },
        (h, c, _) => (c, h),
    }
}

/// What a click does, case by case. A left click with a mergeable stack on
/// the cursor moves as many items as fit, `min(held, max_stack - slot)`,
/// from the cursor onto the slot, emptying the cursor when all fit; any
/// other left click swaps the slot and the cursor. A right click with a
/// stack on the cursor places exactly one item where it can; a right click
/// with an empty cursor picks up the larger half of the slot.
pub proof fn lemma_click_effect(reg: &Registry, cur: Option<ItemStack>, held: Option<ItemStack>, right: bool)
    requires
        click_defined(reg, cur, held, right),
    ensures
        ({
            let r = spec_click_stack(reg, cur, held, right);
            &&& (!right && held is Some && cur is Some && spec_can_merge(reg, cur->0, held->0)) ==> {
                let s = cur->0;
                let h = held->0;
                let room = reg.spec_item(s.item).max_stack - s.count;
                let moved = if h.count < room { h.count as int } else { room };
                &&& r.0 is Some
                &&& r.0->0.count == s.count + moved
                &&& r.0->0.item == s.item && r.0->0.durability == s.durability && r.0->0.arcane_id == s.arcane_id
                &&& opt_count(r.1) == h.count - moved
                &&& (r.1 is Some ==> r.1->0.item == h.item)
                &&& (h.count <= room ==> r.1 is None && r.0->0.count == s.count + h.count)
            }
            &&& (!right && held is Some && !(cur is Some && spec_can_merge(reg, cur->0, held->0))) ==> r.0 == held
                && r.1 == cur
            &&& (!right && held is None) ==> r.0 is None && r.1 == cur
            &&& (right && held is Some && held->0.count >= 1 && (cur is None || (spec_can_merge(reg, cur->0, held->0)
                && cur->0.count < reg.spec_item(cur->0.item).max_stack))) ==> {
                &&& r.0 is Some && r.0->0.item == held->0.item
                &&& r.0->0.count == opt_count(cur) + 1
                &&& opt_count(r.1) == held->0.count - 1
            }
            &&& (right && held is None && cur is Some) ==> {
                &&& r.1 is Some && r.1->0.item == cur->0.item
                &&& 2 * r.1->0.count >= cur->0.count && 2 * r.1->0.count <= cur->0.count + 1
                &&& opt_count(r.0) + r.1->0.count == cur->0.count
            }
            &&& (held is None && cur is None) ==> r.0 is None && r.1 is None
        }),
{
}

/// A click neither creates nor destroys items: the slot and cursor together
/// hold as many items afterwards as before. Placing one item from an empty
/// cursor stack is the one exception and is left out.
pub proof fn lemma_click_conserves_items(
    reg: &Registry,
    cur: Option<ItemStack>,
    held: Option<ItemStack>,
    right: bool,
)
    requires
        click_defined(reg, cur, held, right),
        !(right && held is Some && held->0.count == 0),
    ensures
        opt_count(spec_click_stack(reg, cur, held, right).0) + opt_count(
            spec_click_stack(reg, cur, held, right).1,
        ) == opt_count(cur) + opt_count(held),
{
}

/// The slots after the merge pass of `add_stack` has visited the first `k`
/// slots, with the count still to place.
pub open spec fn merge_state(
    reg: &Registry,
    slots: Seq<Option<ItemStack>>,
    stack: ItemStack,
    k: int,
) -> (Seq<Option<ItemStack>>, int)
    decreases k,
{
    if k <= 0 {
        (slots, stack.count as int)
    } else {
        let (t, c) = merge_state(reg, slots, stack, k - 1);
        let max = spec_max_stack(reg, stack.item);
        match t[k - 1] {
            Some(s) => if c > 0 && spec_can_merge(reg, s, stack) && s.count < max {
                let take = if c < max - s.count { c } else { max - s.count };
                (t.update(k - 1, Some(with_count(s, (s.count + take) as u32))), c - take)
            } else {
                (t, c)
            },
            None => (t, c),
        }
    }
}

/// The slots after the fill pass of `add_stack` has visited the first `k`
/// slots, starting from `slots` with `count` still to place.
pub open spec fn fill_state(
    reg: &Registry,
    slots: Seq<Option<ItemStack>>,
    stack: ItemStack,
    count: int,
    k: int,
) -> (Seq<Option<ItemStack>>, int)
    decreases k,
{
    if k <= 0 {
        (slots, count)
    } else {
        let (t, c) = fill_state(reg, slots, stack, count, k - 1);
        let max = spec_max_stack(reg, stack.item);
        if c > 0 && t[k - 1] is None {
            let take = if c < max { c } else { max as int };
            (t.update(k - 1, Some(with_count(stack, take as u32))), c - take)
        } else {
            (t, c)
        }
    }
}

/// Slots and leftover count after `add_stack`.
pub open spec fn spec_add_stack(
    reg: &Registry,
    slots: Seq<Option<ItemStack>>,
    stack: ItemStack,
) -> (Seq<Option<ItemStack>>, int) {
    let merged = if spec_max_stack(reg, stack.item) > 1 {
        merge_state(reg, slots, stack, slots.len() as int)
    } else {
        (slots, stack.count as int)
    };
    fill_state(reg, merged.0, stack, merged.1, slots.len() as int)
}

/// Total number of items held in `s`.
pub open spec fn total_count(s: Seq<Option<ItemStack>>) -> int
    decreases s.len(),
{
    if s.len() == 0 {
        0
    } else {
        total_count(s.drop_last()) + opt_count(s.last())
    }
}

/// Number of items of kind `item` held in `s`.
pub open spec fn count_in(s: Seq<Option<ItemStack>>, item: ItemId) -> int
    decreases s.len(),
{
    if s.len() == 0 {
        0
    } else {
        count_in(s.drop_last(), item) + match s.last() {
            Some(st) => if st.item == item {
                st.count as int
            } else {
                0
            },
            None => 0,
        }
    }
}

/// Carry weight of the stacks in `s`.
pub open spec fn weight_in(reg: &Registry, s: Seq<Option<ItemStack>>) -> int
    decreases s.len(),
{
    if s.len() == 0 {
        0
    } else {
        weight_in(reg, s.drop_last()) + match s.last() {
            Some(st) => st.count * reg.spec_item(st.item).carry_weight,
            None => 0,
        }
    }
}

/// The stacks present in `s`, in slot order.
pub open spec fn present(s: Seq<Option<ItemStack>>) -> Seq<ItemStack>
    decreases s.len(),
{
    if s.len() == 0 {
        Seq::empty()
    } else {
        match s.last() {
            Some(st) => present(s.drop_last()).push(st),
            None => present(s.drop_last()),
        }
    }
}

pub open spec fn all_valid(reg: &Registry, s: Seq<Option<ItemStack>>) -> bool {
    forall|i: int| 0 <= i < s.len() ==> opt_valid(reg, #[trigger] s[i])
}

proof fn lemma_total_update(s: Seq<Option<ItemStack>>, i: int, v: Option<ItemStack>)
    requires
        0 <= i < s.len(),
    ensures
        total_count(s.update(i, v)) == total_count(s) - opt_count(s[i]) + opt_count(v),
    decreases s.len(),
{
    let t = s.update(i, v);
    if i == s.len() - 1 {
        assert(t.drop_last() =~= s.drop_last());
    } else {
        assert(t.drop_last() =~= s.drop_last().update(i, v));
        lemma_total_update(s.drop_last(), i, v);
    }
}

proof fn lemma_count_in_update(s: Seq<Option<ItemStack>>, i: int, v: Option<ItemStack>, item: ItemId)
    requires
        0 <= i < s.len(),
    ensures
        count_in(s.update(i, v), item) == count_in(s, item) - (match s[i] {
            Some(st) => if st.item == item {
                st.count as int
            } else {
                0
            },
            None => 0,
        }) + (match v {
            Some(st) => if st.item == item {
                st.count as int
            } else {
                0
            },
            None => 0,
        }),
    decreases s.len(),
{
    let t = s.update(i, v);
    if i == s.len() - 1 {
        assert(t.drop_last() =~= s.drop_last());
    } else {
        assert(t.drop_last() =~= s.drop_last().update(i, v));
        lemma_count_in_update(s.drop_last(), i, v, item);
    }
}

proof fn lemma_merge_conserves(
    reg: &Registry,
    slots: Seq<Option<ItemStack>>,
    stack: ItemStack,
    k: int,
)
    requires
        0 <= k <= slots.len(),
        all_valid(reg, slots),
        reg.valid_item(stack.item),
    ensures
        merge_state(reg, slots, stack, k).0.len() == slots.len(),
        total_count(merge_state(reg, slots, stack, k).0) + merge_state(reg, slots, stack, k).1
            == total_count(slots) + stack.count,
        0 <= merge_state(reg, slots, stack, k).1 <= stack.count,
        all_valid(reg, merge_state(reg, slots, stack, k).0),
    decreases k,
{
    if k > 0 {
        lemma_merge_conserves(reg, slots, stack, k - 1);
        let (t, c) = merge_state(reg, slots, stack, k - 1);
        let max = spec_max_stack(reg, stack.item);
        match t[k - 1] {
            Some(s) => if c > 0 && spec_can_merge(reg, s, stack) && s.count < max {
                let take = if c < max - s.count { c } else { max - s.count };
                lemma_total_update(t, k - 1, Some(with_count(s, (s.count + take) as u32)));
                assert(opt_valid(reg, t[k - 1]));
            },
            None => {},
        }
    }
}

proof fn lemma_fill_conserves(
    reg: &Registry,
    slots: Seq<Option<ItemStack>>,
    stack: ItemStack,
    count: int,
    k: int,
)
    requires
        0 <= k <= slots.len(),
        0 <= count,
        all_valid(reg, slots),
        reg.valid_item(stack.item),
    ensures
        fill_state(reg, slots, stack, count, k).0.len() == slots.len(),
        total_count(fill_state(reg, slots, stack, count, k).0) + fill_state(
            reg,
            slots,
            stack,
            count,
            k,
        ).1 == total_count(slots) + count,
        0 <= fill_state(reg, slots, stack, count, k).1 <= count,
        all_valid(reg, fill_state(reg, slots, stack, count, k).0),
    decreases k,
{
    if k > 0 {
        lemma_fill_conserves(reg, slots, stack, count, k - 1);
        let (t, c) = fill_state(reg, slots, stack, count, k - 1);
        let max = spec_max_stack(reg, stack.item);
        if c > 0 && t[k - 1] is None {
            let take = if c < max { c } else { max as int };
            lemma_total_update(t, k - 1, Some(with_count(stack, take as u32)));
        }
    }
}

/// The slots after taking one item from slot `i`.
pub open spec fn spec_take_one(s: Seq<Option<ItemStack>>, i: int) -> Seq<Option<ItemStack>> {
    match s[i] {
        Some(st) => if st.count == 1 {
            s.update(i, None)
        } else {
            s.update(i, Some(with_count(st, (st.count - 1) as u32)))
        },
        None => s,
    }
}

/// A slot after one use of the tool in it.
pub open spec fn spec_wear(reg: &Registry, o: Option<ItemStack>) -> Option<ItemStack> {
    match o {
        Some(st) => if reg.spec_item(st.item).durability > 0 {
            let d = if st.durability > 0 { st.durability - 1 } else { 0 };
            if d == 0 {
                match reg.spec_item(st.item).broken_into {
                    Some(broken) => Some(ItemStack { item: broken, count: 1, durability: 0, arcane_id: st.arcane_id }),
                    None => None,
                }
            } else {
                Some(ItemStack { durability: d as u32, ..st })
            }
        } else {
            o
        },
        None => None,
    }
}

/// The total count of `item` that `cost` asks for, over all its pairs.
pub open spec fn cost_of(cost: Seq<(ItemId, u32)>, item: ItemId) -> int
    decreases cost.len(),
{
    if cost.len() == 0 {
        0
    } else {
        cost_of(cost.drop_last(), item) + if cost.last().0 == item {
            cost.last().1 as int
        } else {
            0
        }
    }
}

/// The whole cost can be paid at once: for each item it names, the
/// inventory holds at least the total count asked for it.
pub open spec fn spec_can_afford(s: Seq<Option<ItemStack>>, cost: Seq<(ItemId, u32)>) -> bool {
    forall|j: int| 0 <= j < cost.len() ==> count_in(s, #[trigger] cost[j].0) >= cost_of(cost, cost[j].0)
}

proof fn lemma_cost_of_bounds(cost: Seq<(ItemId, u32)>, item: ItemId)
    ensures
        0 <= cost_of(cost, item) <= cost.len() * (u32::MAX as int),
    decreases cost.len(),
{
    if cost.len() > 0 {
        lemma_cost_of_bounds(cost.drop_last(), item);
    }
}

fn cost_total(cost: &[(ItemId, u32)], item: ItemId) -> (r: u128)
    ensures
        r == cost_of(cost@, item),
{
    let mut total: u128 = 0;
    let mut k: usize = 0;
    while k < cost.len()
        invariant
            k <= cost@.len(),
            total == cost_of(cost@.take(k as int), item),
        decreases cost@.len() - k,
    {
        proof {
            assert(cost@.take(k + 1).drop_last() =~= cost@.take(k as int));
            lemma_cost_of_bounds(cost@.take(k as int), item);
            assert(k * (u32::MAX as int) <= 0x1_0000_0000_0000_0000 * 0x1_0000_0000) by (nonlinear_arith)
                requires
                    k <= 0x1_0000_0000_0000_0000,
            ;
        }
        if cost[k].0 == item {
            total = total + cost[k].1 as u128;
        }
        k = k + 1;
    }
    assert(cost@.take(cost@.len() as int) =~= cost@);
    total
}

/// Slots and still-owed count after taking `count` of `item` from the
/// first `k` slots, in slot order.
pub open spec fn consume_item_state(
    s: Seq<Option<ItemStack>>,
    item: ItemId,
    count: int,
    k: int,
) -> (Seq<Option<ItemStack>>, int)
    decreases k,
{
    if k <= 0 {
        (s, count)
    } else {
        let (t, rem) = consume_item_state(s, item, count, k - 1);
        match t[k - 1] {
            Some(st) => if rem > 0 && st.item == item {
                let take = if st.count < rem { st.count as int } else { rem };
                let slot = if st.count - take == 0 {
                    None
                } else {
                    Some(with_count(st, (st.count - take) as u32))
                };
                (t.update(k - 1, slot), rem - take)
            } else {
                (t, rem)
            },
            None => (t, rem),
        }
    }
}

/// Slots after paying the first `c` entries of `cost`, each from the
/// slots in order.
pub open spec fn consume_all(s: Seq<Option<ItemStack>>, cost: Seq<(ItemId, u32)>, c: int) -> Seq<
    Option<ItemStack>,
>
    decreases c,
{
    if c <= 0 {
        s
    } else {
        let t = consume_all(s, cost, c - 1);
        consume_item_state(t, cost[c - 1].0, cost[c - 1].1 as int, t.len() as int).0
    }
}

proof fn lemma_consume_item_len(s: Seq<Option<ItemStack>>, item: ItemId, count: int, k: int)
    requires
        0 <= k <= s.len(),
    ensures
        consume_item_state(s, item, count, k).0.len() == s.len(),
    decreases k,
{
    if k > 0 {
        lemma_consume_item_len(s, item, count, k - 1);
    }
}

proof fn lemma_count_prefix_le(s: Seq<Option<ItemStack>>, item: ItemId, k: int)
    requires
        0 <= k <= s.len(),
    ensures
        0 <= count_in(s.subrange(0, k), item) <= count_in(s, item),
    decreases s.len() - k,
{
    if k < s.len() {
        lemma_count_prefix_le(s, item, k + 1);
        let t = s.subrange(0, k + 1);
        assert(t.drop_last() =~= s.subrange(0, k));
        assert(count_in(t, item) >= count_in(t.drop_last(), item));
        lemma_count_nonneg(s.subrange(0, k), item);
    } else {
        assert(s.subrange(0, k) =~= s);
        lemma_count_nonneg(s, item);
    }
}

proof fn lemma_count_nonneg(s: Seq<Option<ItemStack>>, item: ItemId)
    ensures
        0 <= count_in(s, item),
    decreases s.len(),
{
    if s.len() > 0 {
        lemma_count_nonneg(s.drop_last(), item);
    }
}

proof fn lemma_weight_prefix_le(reg: &Registry, s: Seq<Option<ItemStack>>, k: int)
    requires
        0 <= k <= s.len(),
    ensures
        0 <= weight_in(reg, s.subrange(0, k)) <= weight_in(reg, s),
    decreases s.len() - k,
{
    if k < s.len() {
        lemma_weight_prefix_le(reg, s, k + 1);
        let t = s.subrange(0, k + 1);
        assert(t.drop_last() =~= s.subrange(0, k));
        match t.last() {
            Some(st) => {
                assert(0 <= st.count * reg.spec_item(st.item).carry_weight) by (nonlinear_arith);
            },
            None => {},
        }
        assert(weight_in(reg, t) >= weight_in(reg, t.drop_last()));
        lemma_weight_nonneg(reg, s.subrange(0, k));
    } else {
        assert(s.subrange(0, k) =~= s);
        lemma_weight_nonneg(reg, s);
    }
}

proof fn lemma_weight_nonneg(reg: &Registry, s: Seq<Option<ItemStack>>)
    ensures
        0 <= weight_in(reg, s),
    decreases s.len(),
{
    if s.len() > 0 {
        lemma_weight_nonneg(reg, s.drop_last());
        match s.last() {
            Some(st) => {
                assert(0 <= st.count * reg.spec_item(st.item).carry_weight) by (nonlinear_arith);
            },
            None => {},
        }
    }
}

proof fn lemma_consume_item_counts(s: Seq<Option<ItemStack>>, item: ItemId, count: int, k: int)
    requires
        0 <= k <= s.len(),
        0 <= count,
    ensures
        ({
            let (t, rem) = consume_item_state(s, item, count, k);
            &&& count_in(t, item) == count_in(s, item) - (count - rem)
            &&& rem == (if count > count_in(s.subrange(0, k), item) {
                count - count_in(s.subrange(0, k), item)
            } else {
                0
            })
            &&& forall|x: ItemId| x != item ==> #[trigger] count_in(t, x) == count_in(s, x)
            &&& t.len() == s.len()
            &&& forall|j: int| k <= j < s.len() ==> t[j] == s[j]
        }),
    decreases k,
{
    if k == 0 {
        assert(s.subrange(0, 0) =~= Seq::<Option<ItemStack>>::empty());
    } else {
        lemma_consume_item_counts(s, item, count, k - 1);
        let (t, rem) = consume_item_state(s, item, count, k - 1);
        let p = s.subrange(0, k);
        assert(p.drop_last() =~= s.subrange(0, k - 1));
        assert(p.last() == s[k - 1]);
        assert(t[k - 1] == s[k - 1]);
        match t[k - 1] {
            Some(st) => if rem > 0 && st.item == item {
                let take = if st.count < rem { st.count as int } else { rem };
                let slot = if st.count - take == 0 {
                    None
                } else {
                    Some(with_count(st, (st.count - take) as u32))
                };
                lemma_count_in_update(t, k - 1, slot, item);
                assert forall|x: ItemId| x != item implies #[trigger] count_in(t.update(k - 1, slot), x)
                    == count_in(s, x) by {
                    lemma_count_in_update(t, k - 1, slot, x);
                }
            },
            None => {},
        }
    }
}

proof fn lemma_cost_prefix_le(cost: Seq<(ItemId, u32)>, c: int, x: ItemId)
    requires
        0 <= c <= cost.len(),
    ensures
        cost_of(cost.take(c), x) <= cost_of(cost, x),
    decreases cost.len() - c,
{
    if c < cost.len() {
        lemma_cost_prefix_le(cost, c + 1, x);
        assert(cost.take(c + 1).drop_last() =~= cost.take(c));
    } else {
        assert(cost.take(c) =~= cost);
    }
}

/// Paying an affordable cost takes exactly the total it asks for of each
/// item, and nothing of any other item.
pub proof fn lemma_try_consume_deducts(s: Seq<Option<ItemStack>>, cost: Seq<(ItemId, u32)>, c: int)
    requires
        0 <= c <= cost.len(),
        spec_can_afford(s, cost),
    ensures
        forall|x: ItemId| #[trigger] count_in(consume_all(s, cost, c), x) == count_in(s, x) - cost_of(cost.take(c), x),
        consume_all(s, cost, c).len() == s.len(),
    decreases c,
{
    if c == 0 {
        assert(cost.take(0) =~= Seq::<(ItemId, u32)>::empty());
    } else {
        lemma_try_consume_deducts(s, cost, c - 1);
        let t = consume_all(s, cost, c - 1);
        let item = cost[c - 1].0;
        let count = cost[c - 1].1 as int;
        lemma_consume_item_counts(t, item, count, t.len() as int);
        assert(t.subrange(0, t.len() as int) =~= t);
        assert(cost.take(c).drop_last() =~= cost.take(c - 1));
        assert(cost.take(c).last() == cost[c - 1]);
        lemma_cost_prefix_le(cost, c, item);
        assert(count_in(s, cost[c - 1].0) >= cost_of(cost, cost[c - 1].0));
        assert(count_in(t, item) >= count);
        assert forall|x: ItemId| #[trigger] count_in(consume_all(s, cost, c), x) == count_in(s, x) - cost_of(cost.take(c), x) by {
            if x != item {
                assert(count_in(t, x) == count_in(s, x) - cost_of(cost.take(c - 1), x));
            }
        }
    }
}

#[derive(Clone)]
pub struct Inventory {
    pub slots: [Option<ItemStack>; TOTAL_SLOTS],
}

impl Inventory {
    pub fn new() -> (r: Inventory)
        ensures
            forall|i: int| 0 <= i < TOTAL_SLOTS ==> #[trigger] r.slots@[i] is None,
    {
        Inventory { slots: [None; TOTAL_SLOTS] }
    }

    /// Add a stack; returns the count that did not fit. Mergeable stacks
    /// are topped up first, in slot order, then empty slots are filled.
    pub fn add_stack(&mut self, reg: &Registry, stack: ItemStack) -> (r: u32)
        requires
            reg.valid_item(stack.item),
            all_valid(reg, old(self).slots@),
        ensures
            final(self).slots@ == spec_add_stack(reg, old(self).slots@, stack).0,
            r == spec_add_stack(reg, old(self).slots@, stack).1,
            total_count(final(self).slots@) + r == total_count(old(self).slots@) + stack.count,
            all_valid(reg, final(self).slots@),
    {
        let ghost orig = self.slots@;
        let mut count = stack.count;
        let max = reg.item(stack.item).max_stack;
        if max > 1 {
            let mut i: usize = 0;
            while i < TOTAL_SLOTS
                invariant
                    i <= TOTAL_SLOTS,
                    orig.len() == TOTAL_SLOTS,
                    max == spec_max_stack(reg, stack.item),
                    reg.valid_item(stack.item),
                    all_valid(reg, orig),
                    (self.slots@, count as int) == merge_state(reg, orig, stack, i as int),
                decreases TOTAL_SLOTS - i,
            {
                proof {
                    lemma_merge_conserves(reg, orig, stack, i as int);
                }
                if let Some(s) = self.slots[i] {
                    if count > 0 && s.can_merge(reg, &stack) && s.count < max {
                        let room = max - s.count;
                        let take = if count < room {
                            count
                        } else {
                            room
                        };
                        self.slots[i] = Some(ItemStack { count: s.count + take, ..s });
                        count = count - take;
                    }
                }
                proof {
                    assert(self.slots@ == merge_state(reg, orig, stack, i + 1).0);
                }
                i = i + 1;
            }
        }
        let ghost merged = self.slots@;
        let ghost merged_count = count as int;
        proof {
            if max > 1 {
                lemma_merge_conserves(reg, orig, stack, TOTAL_SLOTS as int);
            }
            assert(all_valid(reg, merged));
        }
        let mut j: usize = 0;
        while j < TOTAL_SLOTS
            invariant
                j <= TOTAL_SLOTS,
                merged.len() == TOTAL_SLOTS,
                max == spec_max_stack(reg, stack.item),
                reg.valid_item(stack.item),
                all_valid(reg, merged),
                0 <= merged_count,
                (self.slots@, count as int) == fill_state(reg, merged, stack, merged_count, j as int),
            decreases TOTAL_SLOTS - j,
        {
            if count > 0 && self.slots[j].is_none() {
                let take = if count < max {
                    count
                } else {
                    max
                };
                self.slots[j] = Some(ItemStack { count: take, ..stack });
                count = count - take;
            }
            proof {
                assert(self.slots@ == fill_state(reg, merged, stack, merged_count, j + 1).0);
            }
            j = j + 1;
        }
        proof {
            lemma_fill_conserves(reg, merged, stack, merged_count, TOTAL_SLOTS as int);
        }
        count
    }

    pub fn add(&mut self, reg: &Registry, item: ItemId, count: u32) -> (r: u32)
        requires
            reg.valid_item(item),
            all_valid(reg, old(self).slots@),
        ensures
            ({
                let stack = ItemStack {
                    item,
                    count,
                    durability: reg.spec_item(item).durability,
                    arcane_id: 0,
                };
                &&& final(self).slots@ == spec_add_stack(reg, old(self).slots@, stack).0
                &&& r == spec_add_stack(reg, old(self).slots@, stack).1
            }),
            total_count(final(self).slots@) + r == total_count(old(self).slots@) + count,
            all_valid(reg, final(self).slots@),
    {
        self.add_stack(reg, ItemStack::new(reg, item, count))
    }

    /// Total carry weight in units: each stack contributes
    /// `count * carry_weight` of its item.
    pub fn total_weight(&self, reg: &Registry) -> (r: u64)
        requires
            all_valid(reg, self.slots@),
            weight_in(reg, self.slots@) <= u64::MAX,
        ensures
            r == weight_in(reg, self.slots@),
    {
        let mut total: u64 = 0;
        let mut i: usize = 0;
        while i < TOTAL_SLOTS
            invariant
                i <= TOTAL_SLOTS,
                self.slots@.len() == TOTAL_SLOTS,
                all_valid(reg, self.slots@),
                weight_in(reg, self.slots@) <= u64::MAX,
                total == weight_in(reg, self.slots@.subrange(0, i as int)),
            decreases TOTAL_SLOTS - i,
        {
            proof {
                let s = self.slots@.subrange(0, i + 1);
                assert(s.drop_last() =~= self.slots@.subrange(0, i as int));
                lemma_weight_prefix_le(reg, self.slots@, i + 1);
                assert(opt_valid(reg, self.slots@[i as int]));
            }
            if let Some(s) = self.slots[i] {
                let w = reg.item(s.item).carry_weight;
                proof {
                    assert(0 <= (s.count as int) * (w as int)) by (nonlinear_arith);
                }
                total = total + (s.count as u64) * (w as u64);
            }
            i = i + 1;
        }
        assert(self.slots@.subrange(0, TOTAL_SLOTS as int) =~= self.slots@);
        total
    }

    /// Remove one item from `slot`, returning its kind.
    pub fn take_one(&mut self, slot: usize) -> (r: Option<ItemId>)
        requires
            slot < TOTAL_SLOTS,
            old(self).slots@[slot as int] is Some ==> old(self).slots@[slot as int]->0.count > 0,
        ensures
            r == (match old(self).slots@[slot as int] {
                Some(s) => Some(s.item),
                None => None::<ItemId>,
            }),
            final(self).slots@ == spec_take_one(old(self).slots@, slot as int),
    {
        match self.take_one_stack(slot) {
            Some(stack) => Some(stack.item),
            None => None,
        }
    }

    /// Remove one physical item without discarding its durable identity.
    pub fn take_one_stack(&mut self, slot: usize) -> (r: Option<ItemStack>)
        requires
            slot < TOTAL_SLOTS,
            old(self).slots@[slot as int] is Some ==> old(self).slots@[slot as int]->0.count > 0,
        ensures
            r == (match old(self).slots@[slot as int] {
                Some(s) => Some(with_count(s, 1)),
                None => None::<ItemStack>,
            }),
            final(self).slots@ == spec_take_one(old(self).slots@, slot as int),
    {
        match self.slots[slot] {
            None => None,
            Some(s) => {
                let taken = ItemStack { count: 1, ..s };
                if s.count - 1 == 0 {
                    self.slots[slot] = None;
                } else {
                    self.slots[slot] = Some(ItemStack { count: s.count - 1, ..s });
                }
                Some(taken)
            },
        }
    }

    /// Wear the tool in `slot` by one use. A worn-out item becomes its
    /// declared damaged object, keeping its identity, or vanishes.
    pub fn wear_tool(&mut self, reg: &Registry, slot: usize)
        requires
            slot < TOTAL_SLOTS,
            opt_valid(reg, old(self).slots@[slot as int]),
        ensures
            final(self).slots@ == old(self).slots@.update(
                slot as int,
                spec_wear(reg, old(self).slots@[slot as int]),
            ),
    {
        if let Some(s) = self.slots[slot] {
            let def = reg.item(s.item);
            if def.durability > 0 {
                let durability = if s.durability > 0 {
                    s.durability - 1
                } else {
                    0
                };
                if durability == 0 {
                    self.slots[slot] = match def.broken_into {
                        Some(broken) => Some(
                            ItemStack { item: broken, count: 1, durability: 0, arcane_id: s.arcane_id },
                        ),
                        None => None,
                    };
                } else {
                    self.slots[slot] = Some(ItemStack { durability, ..s });
                }
            }
        }
        proof {
            assert(self.slots@ =~= old(self).slots@.update(
                slot as int,
                spec_wear(reg, old(self).slots@[slot as int]),
            ));
        }
    }

    /// Empty every slot, returning the stacks in slot order.
    pub fn drain(&mut self) -> (r: Vec<ItemStack>)
        ensures
            r@ == present(old(self).slots@),
            forall|i: int| 0 <= i < TOTAL_SLOTS ==> #[trigger] final(self).slots@[i] is None,
    {
        let ghost orig = self.slots@;
        let mut out: Vec<ItemStack> = Vec::new();
        let mut i: usize = 0;
        while i < TOTAL_SLOTS
            invariant
                i <= TOTAL_SLOTS,
                orig.len() == TOTAL_SLOTS,
                self.slots@.len() == TOTAL_SLOTS,
                out@ == present(orig.subrange(0, i as int)),
                forall|j: int| 0 <= j < i ==> #[trigger] self.slots@[j] is None,
                forall|j: int| i <= j < TOTAL_SLOTS ==> #[trigger] self.slots@[j] == orig[j],
            decreases TOTAL_SLOTS - i,
        {
            proof {
                assert(orig.subrange(0, i + 1).drop_last() =~= orig.subrange(0, i as int));
            }
            if let Some(s) = self.slots[i] {
                out.push(s);
                self.slots[i] = None;
            }
            i = i + 1;
        }
        assert(orig.subrange(0, TOTAL_SLOTS as int) =~= orig);
        out
    }

    /// Total count of `item` spread across the whole inventory, regardless
    /// of stack fragmentation.
    pub fn count_of(&self, item: ItemId) -> (r: u32)
        requires
            count_in(self.slots@, item) <= u32::MAX,
        ensures
            r == count_in(self.slots@, item),
    {
        let mut total: u32 = 0;
        let mut i: usize = 0;
        while i < TOTAL_SLOTS
            invariant
                i <= TOTAL_SLOTS,
                self.slots@.len() == TOTAL_SLOTS,
                count_in(self.slots@, item) <= u32::MAX,
                total == count_in(self.slots@.subrange(0, i as int), item),
            decreases TOTAL_SLOTS - i,
        {
            proof {
                assert(self.slots@.subrange(0, i + 1).drop_last() =~= self.slots@.subrange(0, i as int));
                lemma_count_prefix_le(self.slots@, item, i + 1);
            }
            if let Some(s) = self.slots[i] {
                if s.item == item {
                    total = total + s.count;
                }
            }
            i = i + 1;
        }
        assert(self.slots@.subrange(0, TOTAL_SLOTS as int) =~= self.slots@);
        total
    }

    /// Can the whole `cost` (a list of `(item, count)` pairs) be paid at
    /// once? All-or-nothing.
    pub fn can_afford(&self, cost: &[(ItemId, u32)]) -> (r: bool)
        requires
            forall|i: int| 0 <= i < cost@.len() ==> count_in(self.slots@, #[trigger] cost@[i].0) <= u32::MAX,
        ensures
            r == spec_can_afford(self.slots@, cost@),
    {
        let n = cost.len();
        let mut i: usize = 0;
        while i < n
            invariant
                n == cost@.len(),
                i <= n,
                forall|i: int| 0 <= i < cost@.len() ==> count_in(self.slots@, #[trigger] cost@[i].0) <= u32::MAX,
                forall|j: int| 0 <= j < i ==> count_in(self.slots@, #[trigger] cost@[j].0) >= cost_of(cost@, cost@[j].0),
            decreases n - i,
        {
            let item = cost[i].0;
            if (self.count_of(item) as u128) < cost_total(cost, item) {
                return false;
            }
            i = i + 1;
        }
        true
    }

    /// Deduct `cost` from the inventory, taking from slots in order. Returns
    /// `false`, making no change, when any item is short.
    pub fn try_consume(&mut self, cost: &[(ItemId, u32)]) -> (r: bool)
        requires
            forall|i: int| 0 <= i < cost@.len() ==> count_in(old(self).slots@, #[trigger] cost@[i].0) <= u32::MAX,
        ensures
            r == spec_can_afford(old(self).slots@, cost@),
            r ==> final(self).slots@ == consume_all(old(self).slots@, cost@, cost@.len() as int),
            !r ==> final(self).slots@ == old(self).slots@,
    {
        if !self.can_afford(cost) {
            return false;
        }
        let ghost orig = self.slots@;
        let n = cost.len();
        let mut c: usize = 0;
        while c < n
            invariant
                n == cost@.len(),
                c <= n,
                self.slots@.len() == TOTAL_SLOTS,
                orig.len() == TOTAL_SLOTS,
                self.slots@ == consume_all(orig, cost@, c as int),
            decreases n - c,
        {
            let (item, count) = cost[c];
            let ghost before = self.slots@;
            let mut remaining = count;
            let mut i: usize = 0;
            while i < TOTAL_SLOTS
                invariant
                    i <= TOTAL_SLOTS,
                    before.len() == TOTAL_SLOTS,
                    (self.slots@, remaining as int) == consume_item_state(before, item, count as int, i as int),
                decreases TOTAL_SLOTS - i,
            {
                proof {
                    lemma_consume_item_len(before, item, count as int, i as int);
                }
                if remaining > 0 {
                    if let Some(stack) = self.slots[i] {
                        if stack.item == item {
                            let take = if stack.count < remaining {
                                stack.count
                            } else {
                                remaining
                            };
                            remaining = remaining - take;
                            if stack.count - take == 0 {
                                self.slots[i] = None;
                            } else {
                                self.slots[i] = Some(ItemStack { count: stack.count - take, ..stack });
                            }
                        }
                    }
                }
                proof {
                    assert(self.slots@ == consume_item_state(before, item, count as int, i + 1).0);
                }
                i = i + 1;
            }
            proof {
                lemma_consume_item_len(before, item, count as int, TOTAL_SLOTS as int);
            }
            c = c + 1;
        }
        true
    }
}

} // verus!
