//! Finite material that world generation authors rather than draws from a
//! geological account: ruin masonry, chest loot and archaeology finds.

use vstd::prelude::*;
use crate::vector::{MaterialVector, amt, spec_add_vector};
use crate::planet::BlockPos;
use crate::registry::Registry;
use crate::inventory::ItemStack;
use crate::materials::{
    MaterialLedger, ledger_wf, sources_distinct, source_view, add_to_source, positions_distinct, has_pos, placed_at,
    put_placed, spec_is_secondary, stack_materials, is_secondary_item, add_vector,
};

verus! {

/// The material of a whole stack.
pub open spec fn stack_vector(reg: Registry, s: ItemStack) -> Map<Seq<char>, u64> {
    spec_add_vector(Map::empty(), reg.spec_item(s.item).materials@, s.count as int)
}

/// Which stacks a running total takes: all, only secondary stock, or only
/// circulating stock.
pub enum StackFilter {
    All,
    Secondary,
    Circulating,
}

pub open spec fn stack_taken(reg: Registry, s: ItemStack, f: StackFilter) -> bool {
    stack_vector(reg, s).dom().len() != 0 && match f {
        StackFilter::All => true,
        StackFilter::Secondary => spec_is_secondary(reg.spec_item(s.item).name@),
        StackFilter::Circulating => !spec_is_secondary(reg.spec_item(s.item).name@),
    }
}

/// `m` with the material of every taken stack added in order.
pub open spec fn add_stacks(m: Map<Seq<char>, u64>, reg: Registry, stacks: Seq<ItemStack>, f: StackFilter) -> Map<Seq<char>, u64>
    decreases stacks.len(),
{
    if stacks.len() == 0 {
        m
    } else {
        let prev = add_stacks(m, reg, stacks.drop_last(), f);
        if stack_taken(reg, stacks.last(), f) {
            spec_add_vector(prev, stack_vector(reg, stacks.last()), 1)
        } else {
            prev
        }
    }
}

/// `m` with every nonempty placement's material added in order.
pub open spec fn add_placements(m: Map<Seq<char>, u64>, ps: Seq<(BlockPos, MaterialVector)>) -> Map<Seq<char>, u64>
    decreases ps.len(),
{
    if ps.len() == 0 {
        m
    } else {
        let prev = add_placements(m, ps.drop_last());
        if ps.last().1@.dom().len() != 0 {
            spec_add_vector(prev, ps.last().1@, 1)
        } else {
            prev
        }
    }
}

/// The material of the last nonempty placement at `q`, if any.
pub open spec fn last_placement(ps: Seq<(BlockPos, MaterialVector)>, q: BlockPos) -> Option<Map<Seq<char>, u64>>
    decreases ps.len(),
{
    if ps.len() == 0 {
        None
    } else if ps.last().0 == q && ps.last().1@.dom().len() != 0 {
        Some(ps.last().1@)
    } else {
        last_placement(ps.drop_last(), q)
    }
}

pub open spec fn any_content(reg: Registry, stacks: Seq<ItemStack>, ps: Seq<(BlockPos, MaterialVector)>) -> bool {
    (exists|i: int| 0 <= i < stacks.len() && #[trigger] stack_taken(reg, stacks[i], StackFilter::All))
        || (exists|i: int| 0 <= i < ps.len() && (#[trigger] ps[i]).1@.dom().len() != 0)
}

pub open spec fn with_authored(
    l: MaterialLedger,
    ext: MaterialVector,
    sources: Vec<crate::materials::ExternalSource>,
    sec: MaterialVector,
    circ: MaterialVector,
    placed: MaterialVector,
    positions: Vec<crate::materials::PlacedBlock>,
) -> MaterialLedger {
    MaterialLedger {
        external_additions: ext,
        external_sources: sources,
        secondary_physical: sec,
        circulating: circ,
        placed,
        placed_positions: positions,
        ..l
    }
}

impl MaterialLedger {
    /// Register finite material that world generation authored: each stack
    /// of chest or archaeology loot begins circulating (secondary stock as
    /// secondary), and each ruin placement is already in the placed
    /// compartment at its position. All of it is an external addition
    /// attributed to `source`. Returns whether anything was recorded; the
    /// caller saves the ledger when it was.
    pub fn record_external_world_content(
        &mut self,
        reg: &Registry,
        stacks: &Vec<ItemStack>,
        placements: &Vec<(BlockPos, MaterialVector)>,
        source: &str,
    ) -> (changed: bool)
        requires
            ledger_wf(*old(self)),
            forall|i: int| 0 <= i < stacks@.len() ==> reg.valid_item(#[trigger] stacks@[i].item),
        ensures
            ledger_wf(*final(self)),
            *final(self) == with_authored(
                *old(self),
                final(self).external_additions,
                final(self).external_sources,
                final(self).secondary_physical,
                final(self).circulating,
                final(self).placed,
                final(self).placed_positions,
            ),
            changed == any_content(*reg, stacks@, placements@),
            final(self).external_additions@ == add_placements(
                add_stacks(old(self).external_additions@, *reg, stacks@, StackFilter::All),
                placements@,
            ),
            source_view(final(self).external_sources@, source@) == add_placements(
                add_stacks(source_view(old(self).external_sources@, source@), *reg, stacks@, StackFilter::All),
                placements@,
            ),
            forall|n: Seq<char>| n != source@ ==> #[trigger] source_view(final(self).external_sources@, n) == source_view(
                old(self).external_sources@,
                n,
            ),
            final(self).secondary_physical@ == add_stacks(old(self).secondary_physical@, *reg, stacks@, StackFilter::Secondary),
            final(self).circulating@ == add_stacks(old(self).circulating@, *reg, stacks@, StackFilter::Circulating),
            final(self).placed@ == add_placements(old(self).placed@, placements@),
            forall|q: BlockPos| #[trigger] has_pos(final(self).placed_positions@, q) == (last_placement(placements@, q) is Some
                || has_pos(old(self).placed_positions@, q)),
            forall|q: BlockPos| #[trigger] placed_at(final(self).placed_positions@, q) == match last_placement(placements@, q) {
                Some(v) => v,
                None => placed_at(old(self).placed_positions@, q),
            },
    {
        let ghost l0 = *self;
        let mut changed = false;
        let mut i: usize = 0;
        assert(stacks@.take(0) =~= Seq::<ItemStack>::empty());
        while i < stacks.len()
            invariant
                i <= stacks@.len(),
                ledger_wf(*self),
                forall|k: int| 0 <= k < stacks@.len() ==> reg.valid_item(#[trigger] stacks@[k].item),
                *self == with_authored(
                    l0,
                    self.external_additions,
                    self.external_sources,
                    self.secondary_physical,
                    self.circulating,
                    self.placed,
                    self.placed_positions,
                ),
                self.placed@ == l0.placed@,
                self.placed_positions@ == l0.placed_positions@,
                changed == exists|k: int| 0 <= k < i && #[trigger] stack_taken(*reg, stacks@[k], StackFilter::All),
                self.external_additions@ == add_stacks(l0.external_additions@, *reg, stacks@.take(i as int), StackFilter::All),
                source_view(self.external_sources@, source@) == add_stacks(
                    source_view(l0.external_sources@, source@),
                    *reg,
                    stacks@.take(i as int),
                    StackFilter::All,
                ),
                forall|n: Seq<char>| n != source@ ==> #[trigger] source_view(self.external_sources@, n) == source_view(
                    l0.external_sources@,
                    n,
                ),
                self.secondary_physical@ == add_stacks(l0.secondary_physical@, *reg, stacks@.take(i as int), StackFilter::Secondary),
                self.circulating@ == add_stacks(l0.circulating@, *reg, stacks@.take(i as int), StackFilter::Circulating),
            decreases stacks@.len() - i,
        {
            let stack = stacks[i];
            proof {
                assert(stacks@.take(i + 1).drop_last() =~= stacks@.take(i as int));
                assert(stacks@.take(i + 1).last() == stack);
            }
            let materials = stack_materials(reg, stack);
            if !materials.is_empty() {
                add_vector(&mut self.external_additions, &materials, 1);
                add_to_source(&mut self.external_sources, source, &materials);
                if is_secondary_item(reg, stack.item) {
                    add_vector(&mut self.secondary_physical, &materials, 1);
                } else {
                    add_vector(&mut self.circulating, &materials, 1);
                }
                changed = true;
                proof {
                    assert(stack_taken(*reg, stacks@[i as int], StackFilter::All));
                }
            } else {
                proof {
                    assert forall|k: int| 0 <= k < i + 1 && #[trigger] stack_taken(*reg, stacks@[k], StackFilter::All) implies k < i by {
                        if k == i {
                            assert(stack_vector(*reg, stacks@[k]).dom().len() == 0);
                        }
                    }
                }
            }
            i = i + 1;
        }
        proof {
            assert(stacks@.take(stacks@.len() as int) =~= stacks@);
        }
        let mut j: usize = 0;
        assert(placements@.take(0) =~= Seq::<(BlockPos, MaterialVector)>::empty());
        let ghost l1 = *self;
        let ghost changed_stacks = changed;
        while j < placements.len()
            invariant
                j <= placements@.len(),
                ledger_wf(*self),
                *self == with_authored(
                    l0,
                    self.external_additions,
                    self.external_sources,
                    self.secondary_physical,
                    self.circulating,
                    self.placed,
                    self.placed_positions,
                ),
                self.secondary_physical@ == l1.secondary_physical@,
                self.circulating@ == l1.circulating@,
                changed == (changed_stacks || exists|k: int| 0 <= k < j && (#[trigger] placements@[k]).1@.dom().len() != 0),
                self.external_additions@ == add_placements(l1.external_additions@, placements@.take(j as int)),
                source_view(self.external_sources@, source@) == add_placements(
                    source_view(l1.external_sources@, source@),
                    placements@.take(j as int),
                ),
                forall|n: Seq<char>| n != source@ ==> #[trigger] source_view(self.external_sources@, n) == source_view(
                    l1.external_sources@,
                    n,
                ),
                self.placed@ == add_placements(l1.placed@, placements@.take(j as int)),
                forall|q: BlockPos| #[trigger] has_pos(self.placed_positions@, q) == (last_placement(placements@.take(j as int), q) is Some
                    || has_pos(l1.placed_positions@, q)),
                forall|q: BlockPos| #[trigger] placed_at(self.placed_positions@, q) == match last_placement(placements@.take(j as int), q) {
                    Some(v) => v,
                    None => placed_at(l1.placed_positions@, q),
                },
            decreases placements@.len() - j,
        {
            let ghost pre = placements@.take(j as int);
            let ghost post = placements@.take(j + 1);
            proof {
                assert(post.drop_last() =~= pre);
                assert(post.last() == placements@[j as int]);
            }
            let pos = placements[j].0;
            let materials = &placements[j].1;
            if !materials.is_empty() {
                let ghost pp0 = self.placed_positions@;
                add_vector(&mut self.external_additions, materials, 1);
                add_to_source(&mut self.external_sources, source, materials);
                add_vector(&mut self.placed, materials, 1);
                put_placed(&mut self.placed_positions, pos, materials.duplicate());
                changed = true;
                proof {
                    assert forall|q: BlockPos| #[trigger] has_pos(self.placed_positions@, q) == (last_placement(post, q) is Some
                        || has_pos(l1.placed_positions@, q)) by {
                        if q != pos {
                            assert(has_pos(self.placed_positions@, q) == has_pos(pp0, q));
                        }
                    }
                    assert forall|q: BlockPos| #[trigger] placed_at(self.placed_positions@, q) == match last_placement(post, q) {
                        Some(v) => v,
                        None => placed_at(l1.placed_positions@, q),
                    } by {
                        if q != pos {
                            assert(placed_at(self.placed_positions@, q) == placed_at(pp0, q));
                        }
                    }
                }
            } else {
                proof {
                    assert forall|k: int| 0 <= k < j + 1 && (#[trigger] placements@[k]).1@.dom().len() != 0 implies k < j by {}
                    assert forall|q: BlockPos| #[trigger] last_placement(post, q) == last_placement(pre, q) by {}
                }
            }
            j = j + 1;
        }
        proof {
            assert(placements@.take(placements@.len() as int) =~= placements@);
        }
        changed
    }
}

/// Distinct material names held across every salvage pool.
pub open spec fn f_pool_names() -> spec_fn((crate::materials::SalvageRegion, crate::materials::SalvagePool)) -> int {
    |p: (crate::materials::SalvageRegion, crate::materials::SalvagePool)| p.1.materials@.dom().len() as int
}

impl MaterialLedger {
    /// How many (region, material) entries the salvage pools hold in all.
    pub fn salvage_cardinality(&self) -> (r: usize)
        requires
            crate::materials::seq_sum(self.salvage@, f_pool_names()) <= usize::MAX,
        ensures
            r == crate::materials::seq_sum(self.salvage@, f_pool_names()),
    {
        let mut total: usize = 0;
        let mut i: usize = 0;
        assert(self.salvage@.take(0) =~= Seq::<(crate::materials::SalvageRegion, crate::materials::SalvagePool)>::empty());
        while i < self.salvage.len()
            invariant
                i <= self.salvage@.len(),
                total == crate::materials::seq_sum(self.salvage@.take(i as int), f_pool_names()),
                crate::materials::seq_sum(self.salvage@, f_pool_names()) <= usize::MAX,
            decreases self.salvage@.len() - i,
        {
            proof {
                assert(self.salvage@.take(i + 1).drop_last() =~= self.salvage@.take(i as int));
                lemma_prefix_sum_bounded(self.salvage@, i + 1);
            }
            total = total + self.salvage[i].1.materials.len();
            i = i + 1;
        }
        assert(self.salvage@.take(i as int) =~= self.salvage@);
        total
    }
}

proof fn lemma_prefix_sum_bounded(
    s: Seq<(crate::materials::SalvageRegion, crate::materials::SalvagePool)>,
    k: int,
)
    requires
        0 <= k <= s.len(),
    ensures
        crate::materials::seq_sum(s.take(k), f_pool_names()) <= crate::materials::seq_sum(s, f_pool_names()),
    decreases s.len() - k,
{
    if k < s.len() {
        lemma_prefix_sum_bounded(s, k + 1);
        assert(s.take(k + 1).drop_last() =~= s.take(k));
    } else {
        assert(s.take(k) =~= s);
    }
}

} // verus!
