//! The planet-wide facts that material qualification reads from the atlas:
//! how many major continents there are, how many of them carry carbonate
//! flux, and how many treasure-mineral sites the geology placed.

use vstd::prelude::*;
use crate::materials::{
    MaterialLedger, MaterialQualification, ledger_wf, pair_views, spec_unexplained, manifests_distinct, item_saved,
    block_saved, item_names_distinct, block_names_distinct, has_retrogen,
};
use crate::modres::{ModOre, ModMineralSite, ores_covered};
use crate::registry::Registry;
use crate::vector::MaterialVector;

verus! {

/// The mineral a geological deposit site was generated as.
#[derive(Clone, Copy, PartialEq, Eq, Debug, Hash, Structural)]
pub enum MineralKind {
    Copper,
    Tin,
    Iron,
    Cobalt,
    Cinnabar,
    Manganese,
    Coal,
    Gold,
    Galena,
    Chromite,
    Diamond,
    RareEarth,
    Halite,
    Pitchblende,
    Geode,
    Other,
}

/// One continent of the atlas.
#[derive(Clone, Copy, PartialEq, Eq, Debug, Structural)]
pub struct ContinentFact {
    pub id: u32,
    pub major: bool,
}

/// One terrain cell of the atlas: the landmass it belongs to and whether its
/// bedrock is a carbonate (limestone or marble).
#[derive(Clone, Copy, PartialEq, Eq, Debug, Structural)]
pub struct LandCell {
    pub landmass_id: u32,
    pub carbonate: bool,
}

/// The material a site of `m` carries when no loaded ore declares one, and
/// its units per block.
pub open spec fn spec_fallback_material(m: MineralKind) -> (Seq<char>, u64) {
    match m {
        MineralKind::Copper => ("copper"@, 1_200),
        MineralKind::Tin => ("tin"@, 1_200),
        MineralKind::Iron => ("iron"@, 1_200),
        MineralKind::Cobalt => ("cobalt"@, 1_200),
        MineralKind::Cinnabar => ("mercury"@, 1_200),
        MineralKind::Manganese => ("manganese"@, 1_200),
        MineralKind::Coal => ("coal"@, 1_200),
        MineralKind::Gold => ("gold"@, 1_200),
        MineralKind::Galena => ("lead"@, 1_200),
        MineralKind::Chromite => ("chromium"@, 1_200),
        MineralKind::Diamond => ("diamond"@, 1_200),
        MineralKind::RareEarth => ("rare_earth"@, 1_200),
        MineralKind::Halite => ("salt"@, 2_400),
        MineralKind::Pitchblende => ("uranium"@, 1_200),
        MineralKind::Geode => ("quartz"@, 1_200),
        MineralKind::Other => ("unknown_mineral"@, 1_200),
    }
}

fn fallback_material(m: MineralKind) -> (r: (&'static str, u64))
    ensures
        r.0@ == spec_fallback_material(m).0,
        r.1 == spec_fallback_material(m).1,
{
    match m {
        MineralKind::Copper => ("copper", 1_200),
        MineralKind::Tin => ("tin", 1_200),
        MineralKind::Iron => ("iron", 1_200),
        MineralKind::Cobalt => ("cobalt", 1_200),
        MineralKind::Cinnabar => ("mercury", 1_200),
        MineralKind::Manganese => ("manganese", 1_200),
        MineralKind::Coal => ("coal", 1_200),
        MineralKind::Gold => ("gold", 1_200),
        MineralKind::Galena => ("lead", 1_200),
        MineralKind::Chromite => ("chromium", 1_200),
        MineralKind::Diamond => ("diamond", 1_200),
        MineralKind::RareEarth => ("rare_earth", 1_200),
        MineralKind::Halite => ("salt", 2_400),
        MineralKind::Pitchblende => ("uranium", 1_200),
        MineralKind::Geode => ("quartz", 1_200),
        MineralKind::Other => ("unknown_mineral", 1_200),
    }
}

/// Ore `i` is of kind `m` and declares some material.
pub open spec fn ore_supplies(ores: Seq<(MineralKind, MaterialVector)>, m: MineralKind, i: int) -> bool {
    ores[i].0 == m && ores[i].1@.dom().len() != 0
}

/// Ore `i` is the first that supplies `m`.
pub open spec fn first_supplier(ores: Seq<(MineralKind, MaterialVector)>, m: MineralKind, i: int) -> bool {
    0 <= i < ores.len() && ore_supplies(ores, m, i) && forall|j: int| 0 <= j < i ==> !#[trigger] ore_supplies(ores, m, j)
}

/// The material one block of a `mineral` deposit carries: that of the first
/// loaded ore of its kind that declares any, else a fixed default.
pub fn mineral_materials(mineral: MineralKind, ores: &Vec<(MineralKind, MaterialVector)>) -> (r: MaterialVector)
    ensures
        forall|i: int| first_supplier(ores@, mineral, i) ==> r@ == ores@[i].1@,
        (forall|i: int| 0 <= i < ores@.len() ==> !#[trigger] ore_supplies(ores@, mineral, i)) ==> r@ == map![
            spec_fallback_material(mineral).0 => spec_fallback_material(mineral).1,
        ],
{
    let mut i: usize = 0;
    while i < ores.len()
        invariant
            i <= ores@.len(),
            forall|j: int| 0 <= j < i ==> !#[trigger] ore_supplies(ores@, mineral, j),
        decreases ores@.len() - i,
    {
        if ores[i].0 == mineral && !ores[i].1.is_empty() {
            proof {
                assert(first_supplier(ores@, mineral, i as int));
                assert forall|k: int| first_supplier(ores@, mineral, k) implies k == i by {
                    if k < i {
                        assert(!ore_supplies(ores@, mineral, k));
                    } else if k > i {
                        assert(!ore_supplies(ores@, mineral, i as int));
                    }
                }
            }
            return ores[i].1.duplicate();
        }
        i = i + 1;
    }
    let (name, units) = fallback_material(mineral);
    let mut v = MaterialVector::new();
    v.insert(name, units);
    proof {
        assert forall|k: int| !first_supplier(ores@, mineral, k) by {
            if 0 <= k < ores@.len() {
                assert(!ore_supplies(ores@, mineral, k));
            }
        }
        assert(v@ =~= map![spec_fallback_material(mineral).0 => spec_fallback_material(mineral).1]);
    }
    v
}

/// Ids of the major continents among the first `n`.
pub open spec fn major_upto(cs: Seq<ContinentFact>, n: int) -> Set<u32> {
    Set::new(|id: u32| exists|i: int| 0 <= i < n && #[trigger] cs[i].id == id && cs[i].major)
}

/// Ids of the major continents.
pub open spec fn major_set(cs: Seq<ContinentFact>) -> Set<u32> {
    major_upto(cs, cs.len() as int)
}

/// Major landmasses that some carbonate cell among the first `n` lies on.
pub open spec fn flux_upto(cs: Seq<ContinentFact>, cells: Seq<LandCell>, n: int) -> Set<u32> {
    Set::new(
        |id: u32|
            major_set(cs).contains(id) && exists|i: int|
                0 <= i < n && #[trigger] cells[i].landmass_id == id && cells[i].carbonate,
    )
}

/// Major landmasses with carbonate flux.
pub open spec fn flux_set(cs: Seq<ContinentFact>, cells: Seq<LandCell>) -> Set<u32> {
    flux_upto(cs, cells, cells.len() as int)
}

/// How many sites are of kind `k`.
pub open spec fn kind_count(s: Seq<MineralKind>, k: MineralKind) -> nat
    decreases s.len(),
{
    if s.len() == 0 {
        0
    } else {
        kind_count(s.drop_last(), k) + if s.last() == k { 1nat } else { 0nat }
    }
}

/// Treasure-site counts by name, in name order.
pub open spec fn spec_treasure(s: Seq<MineralKind>) -> Seq<(Seq<char>, usize)> {
    seq![
        ("diamond"@, kind_count(s, MineralKind::Diamond) as usize),
        ("pitchblende"@, kind_count(s, MineralKind::Pitchblende) as usize),
        ("rare earth"@, kind_count(s, MineralKind::RareEarth) as usize),
    ]
}

/// Two qualifications record the same facts.
pub open spec fn same_qualification(a: MaterialQualification, b: MaterialQualification) -> bool {
    &&& a.major_continents == b.major_continents
    &&& a.major_continents_with_flux == b.major_continents_with_flux
    &&& pair_views(a.treasure_site_counts@) == pair_views(b.treasure_site_counts@)
}

pub open spec fn with_qualification(l: MaterialLedger, q: MaterialQualification) -> MaterialLedger {
    MaterialLedger { qualification: q, ..l }
}

fn contains_id(v: &Vec<u32>, x: u32) -> (r: bool)
    ensures
        r == v@.contains(x),
{
    let mut i: usize = 0;
    while i < v.len()
        invariant
            i <= v@.len(),
            forall|k: int| 0 <= k < i ==> v@[k] != x,
        decreases v@.len() - i,
    {
        if v[i] == x {
            return true;
        }
        i = i + 1;
    }
    false
}

/// Push `x` unless already present; the list stays free of duplicates.
fn push_distinct(v: &mut Vec<u32>, x: u32)
    requires
        old(v)@.no_duplicates(),
    ensures
        final(v)@.no_duplicates(),
        final(v)@.to_set() == old(v)@.to_set().insert(x),
        final(v)@.len() <= old(v)@.len() + 1,
{
    let ghost before = v@;
    if !contains_id(v, x) {
        v.push(x);
        proof {
            assert forall|a: int, b: int| 0 <= a < b < v@.len() implies v@[a] != v@[b] by {
                if b == v@.len() - 1 {
                    assert(before[a] == v@[a]);
                }
            }
            assert forall|id: u32| #[trigger] v@.to_set().contains(id) == before.to_set().insert(x).contains(id) by {
                if before.contains(id) {
                    let k = choose|k: int| 0 <= k < before.len() && before[k] == id;
                    assert(v@[k] == id);
                }
                if id == x {
                    assert(v@[before.len() as int] == x);
                }
                if v@.contains(id) {
                    let k = choose|k: int| 0 <= k < v@.len() && v@[k] == id;
                    if k < before.len() {
                        assert(before[k] == id);
                    }
                }
            }
            assert(v@.to_set() =~= before.to_set().insert(x));
        }
    } else {
        proof {
            assert(v@.to_set() =~= before.to_set().insert(x));
        }
    }
}

fn count_kind(sites: &Vec<MineralKind>, k: MineralKind) -> (r: usize)
    ensures
        r == kind_count(sites@, k),
{
    let mut n: usize = 0;
    let mut i: usize = 0;
    while i < sites.len()
        invariant
            i <= sites@.len(),
            n == kind_count(sites@.take(i as int), k),
            n <= i,
        decreases sites@.len() - i,
    {
        proof {
            assert(sites@.take(i as int + 1).drop_last() =~= sites@.take(i as int));
        }
        if sites[i] == k {
            n = n + 1;
        }
        i = i + 1;
    }
    assert(sites@.take(sites@.len() as int) =~= sites@);
    n
}

impl MaterialQualification {
    /// Survey the atlas: the number of distinct major continents, the number
    /// of distinct major landmasses with a carbonate cell, and the diamond,
    /// pitchblende and rare-earth site counts.
    pub fn survey(continents: &Vec<ContinentFact>, cells: &Vec<LandCell>, sites: &Vec<MineralKind>) -> (r: MaterialQualification)
        ensures
            r.major_continents == major_set(continents@).len(),
            r.major_continents_with_flux == flux_set(continents@, cells@).len(),
            pair_views(r.treasure_site_counts@) == spec_treasure(sites@),
    {
        let mut major: Vec<u32> = Vec::new();
        let mut i: usize = 0;
        while i < continents.len()
            invariant
                i <= continents@.len(),
                major@.no_duplicates(),
                major@.to_set() == major_upto(continents@, i as int),
                major@.len() <= i,
            decreases continents@.len() - i,
        {
            let c = continents[i];
            if c.major {
                push_distinct(&mut major, c.id);
            }
            proof {
                let cs = continents@;
                assert forall|id: u32| #[trigger] major@.to_set().contains(id) == major_upto(cs, i as int + 1).contains(id) by {
                    if major_upto(cs, i as int + 1).contains(id) {
                        let k = choose|k: int| 0 <= k < i as int + 1 && #[trigger] cs[k].id == id && cs[k].major;
                        if k < i {
                            assert(major_upto(cs, i as int).contains(id));
                        }
                    }
                    if major_upto(cs, i as int).contains(id) {
                        let k = choose|k: int| 0 <= k < i as int && #[trigger] cs[k].id == id && cs[k].major;
                        assert(major_upto(cs, i as int + 1).contains(id));
                    }
                    if c.major && id == c.id {
                        assert(cs[i as int].id == id);
                        assert(major_upto(cs, i as int + 1).contains(id));
                    }
                }
                assert(major@.to_set() =~= major_upto(cs, i as int + 1));
            }
            i = i + 1;
        }
        proof {
            major@.unique_seq_to_set();
        }
        let mut flux: Vec<u32> = Vec::new();
        let mut j: usize = 0;
        while j < cells.len()
            invariant
                j <= cells@.len(),
                major@.to_set() == major_set(continents@),
                flux@.no_duplicates(),
                flux@.to_set() == flux_upto(continents@, cells@, j as int),
                flux@.len() <= j,
            decreases cells@.len() - j,
        {
            let cell = cells[j];
            let on_major = contains_id(&major, cell.landmass_id);
            if cell.carbonate && on_major {
                push_distinct(&mut flux, cell.landmass_id);
            }
            proof {
                let cs = continents@;
                let ls = cells@;
                assert forall|id: u32| #[trigger] flux@.to_set().contains(id) == flux_upto(cs, ls, j as int + 1).contains(id) by {
                    if flux_upto(cs, ls, j as int + 1).contains(id) {
                        let k = choose|k: int| 0 <= k < j as int + 1 && #[trigger] ls[k].landmass_id == id && ls[k].carbonate;
                        if k < j {
                            assert(flux_upto(cs, ls, j as int).contains(id));
                        } else {
                            assert(major@.to_set().contains(id));
                        }
                    }
                    if flux_upto(cs, ls, j as int).contains(id) {
                        let k = choose|k: int| 0 <= k < j as int && #[trigger] ls[k].landmass_id == id && ls[k].carbonate;
                        assert(flux_upto(cs, ls, j as int + 1).contains(id));
                    }
                    if cell.carbonate && on_major && id == cell.landmass_id {
                        assert(ls[j as int].landmass_id == id);
                        assert(major@.to_set().contains(id));
                        assert(flux_upto(cs, ls, j as int + 1).contains(id));
                    }
                }
                assert(flux@.to_set() =~= flux_upto(cs, ls, j as int + 1));
            }
            j = j + 1;
        }
        proof {
            flux@.unique_seq_to_set();
        }
        let diamond = count_kind(sites, MineralKind::Diamond);
        let pitchblende = count_kind(sites, MineralKind::Pitchblende);
        let rare_earth = count_kind(sites, MineralKind::RareEarth);
        let mut treasure: Vec<(String, usize)> = Vec::new();
        treasure.push((String::from_str("diamond"), diamond));
        treasure.push((String::from_str("pitchblende"), pitchblende));
        treasure.push((String::from_str("rare earth"), rare_earth));
        proof {
            assert(pair_views(treasure@) =~= spec_treasure(sites@));
        }
        MaterialQualification {
            major_continents: major.len(),
            major_continents_with_flux: flux.len(),
            treasure_site_counts: treasure,
        }
    }
}

fn same_counts(a: &Vec<(String, usize)>, b: &Vec<(String, usize)>) -> (r: bool)
    ensures
        r == (pair_views(a@) == pair_views(b@)),
{
    if a.len() != b.len() {
        proof {
            assert(pair_views(a@).len() != pair_views(b@).len());
        }
        return false;
    }
    let mut i: usize = 0;
    while i < a.len()
        invariant
            i <= a@.len(),
            a@.len() == b@.len(),
            forall|k: int| 0 <= k < i ==> #[trigger] pair_views(a@)[k] == pair_views(b@)[k],
        decreases a@.len() - i,
    {
        if a[i].1 != b[i].1 || !crate::text::str_eq(a[i].0.as_str(), b[i].0.as_str()) {
            proof {
                assert(pair_views(a@)[i as int] != pair_views(b@)[i as int]);
            }
            return false;
        }
        i = i + 1;
    }
    proof {
        assert(pair_views(a@) =~= pair_views(b@));
    }
    true
}

impl MaterialLedger {
    /// Record the atlas's qualification facts. Returns whether they differ
    /// from the recorded ones; nothing else changes.
    pub fn reconcile_qualification(&mut self, qualification: MaterialQualification) -> (changed: bool)
        ensures
            changed == !same_qualification(old(self).qualification, qualification),
            same_qualification(final(self).qualification, qualification),
            changed ==> *final(self) == with_qualification(*old(self), qualification),
            !changed ==> *final(self) == *old(self),
    {
        let same = self.qualification.major_continents == qualification.major_continents
            && self.qualification.major_continents_with_flux == qualification.major_continents_with_flux
            && same_counts(&self.qualification.treasure_site_counts, &qualification.treasure_site_counts);
        if same {
            false
        } else {
            self.qualification = qualification;
            true
        }
    }
}

/// Some material-bearing definition has no saved identity, or a different one.
pub open spec fn definitions_stale(l: MaterialLedger, reg: &Registry) -> bool {
    ||| exists|i: int| 0 <= i < reg.items@.len() && reg.items@[i].materials@.dom().len() != 0 && !item_saved(
        l.item_manifests@,
        #[trigger] reg.items@[i],
    )
    ||| exists|i: int| 0 <= i < reg.blocks@.len() && reg.blocks@[i].materials@.dom().len() != 0 && !block_saved(
        l.block_manifests@,
        #[trigger] reg.blocks@[i],
    )
}

/// A ledger already holds everything `reconcile_loaded` would bring it:
/// every mod resource's policy record, every material identity, these
/// qualification facts and this content hash.
pub open spec fn settled(
    l: MaterialLedger,
    ores: Seq<ModOre>,
    reg: &Registry,
    content_hash: u64,
    qualification: MaterialQualification,
) -> bool {
    &&& ores_covered(l, ores)
    &&& !definitions_stale(l, reg)
    &&& same_qualification(l.qualification, qualification)
    &&& l.content_hash == content_hash
}

impl MaterialLedger {
    /// Bring a ledger read back from disk up to date with the loaded content:
    /// install the manifests of new mod resources, save material identities,
    /// record the atlas's qualification facts and adopt the content hash.
    /// Returns whether the ledger must be written back: something was
    /// installed, saved or recorded, or the content hash changed. The
    /// material balance is untouched.
    pub fn reconcile_loaded(
        &mut self,
        ores: &Vec<ModOre>,
        sites: &Vec<ModMineralSite>,
        reg: &Registry,
        content_hash: u64,
        qualification: MaterialQualification,
    ) -> (save: bool)
        requires
            ledger_wf(*old(self)),
            old(self).deposits@.len() + ores@.len() * sites@.len() < 0x8000_0000,
            manifests_distinct(old(self).item_manifests@),
            manifests_distinct(old(self).block_manifests@),
            item_names_distinct(reg),
            block_names_distinct(reg),
        ensures
            ledger_wf(*final(self)),
            manifests_distinct(final(self).item_manifests@),
            manifests_distinct(final(self).block_manifests@),
            final(self).content_hash == content_hash,
            same_qualification(final(self).qualification, qualification),
            forall|i: int| 0 <= i < ores@.len() && (#[trigger] ores@[i]).mod_id@ != "base"@ ==> has_retrogen(*final(self), ores@[i].resource_key@),
            !definitions_stale(*final(self), reg),
            settled(*final(self), ores@, reg, content_hash, qualification),
            settled(*old(self), ores@, reg, content_hash, qualification) ==> !save,
            save == (final(self).retrogen@.len() > old(self).retrogen@.len() || definitions_stale(*old(self), reg)
                || !same_qualification(old(self).qualification, qualification) || old(self).content_hash != content_hash),
            forall|m: Seq<char>| #[trigger] spec_unexplained(*final(self), m) == spec_unexplained(*old(self), m),
    {
        let ghost l0 = *self;
        let installed = self.reconcile_mod_manifests(ores, sites, content_hash);
        let ghost l1 = *self;
        proof {
            assert(l1.item_manifests == l0.item_manifests && l1.block_manifests == l0.block_manifests);
        }
        let saved = self.reconcile_saved_definitions(reg);
        let ghost l2 = *self;
        proof {
            assert(ledger_wf(l2));
            assert forall|m: Seq<char>| #[trigger] spec_unexplained(l2, m) == spec_unexplained(l1, m) by {}
            assert forall|i: int| 0 <= i < ores@.len() && (#[trigger] ores@[i]).mod_id@ != "base"@ implies has_retrogen(l2, ores@[i].resource_key@) by {
                assert(has_retrogen(l1, ores@[i].resource_key@));
            }
            if definitions_stale(l2, reg) {
                if exists|i: int| 0 <= i < reg.items@.len() && reg.items@[i].materials@.dom().len() != 0 && !item_saved(
                    l2.item_manifests@,
                    #[trigger] reg.items@[i],
                ) {
                    let i = choose|i: int| 0 <= i < reg.items@.len() && reg.items@[i].materials@.dom().len() != 0 && !item_saved(
                        l2.item_manifests@,
                        #[trigger] reg.items@[i],
                    );
                    assert(item_saved(l2.item_manifests@, reg.items@[i]));
                } else {
                    let i = choose|i: int| 0 <= i < reg.blocks@.len() && reg.blocks@[i].materials@.dom().len() != 0 && !block_saved(
                        l2.block_manifests@,
                        #[trigger] reg.blocks@[i],
                    );
                    assert(block_saved(l2.block_manifests@, reg.blocks@[i]));
                }
            }
        }
        let recorded = self.reconcile_qualification(qualification);
        let ghost l3 = *self;
        proof {
            assert forall|m: Seq<char>| #[trigger] spec_unexplained(l3, m) == spec_unexplained(l2, m) by {
                lemma_qualification_keeps_balance(l2, l3.qualification, m);
                if recorded {
                    assert(l3 == with_qualification(l2, l3.qualification));
                } else {
                    assert(l3 == l2);
                }
            }
            assert(l3.retrogen == l2.retrogen && l2.retrogen == l1.retrogen);
            assert(l3.item_manifests == l2.item_manifests && l3.block_manifests == l2.block_manifests);
            assert forall|i: int| 0 <= i < ores@.len() && (#[trigger] ores@[i]).mod_id@ != "base"@ implies has_retrogen(l3, ores@[i].resource_key@) by {
                assert(has_retrogen(l2, ores@[i].resource_key@));
            }
        }
        let hash_changed = self.content_hash != content_hash;
        self.content_hash = content_hash;
        proof {
            assert forall|m: Seq<char>| #[trigger] spec_unexplained(*self, m) == spec_unexplained(l3, m) by {}
            assert forall|i: int| 0 <= i < ores@.len() && (#[trigger] ores@[i]).mod_id@ != "base"@ implies has_retrogen(*self, ores@[i].resource_key@) by {
                assert(has_retrogen(l3, ores@[i].resource_key@));
            }
        }
        installed || saved || recorded || hash_changed
    }
}

/// Only major continents can carry flux: the survey never reports more
/// continents with carbonate flux than major continents.
pub proof fn lemma_flux_within_major(cs: Seq<ContinentFact>, cells: Seq<LandCell>)
    ensures
        major_set(cs).finite(),
        flux_set(cs, cells).len() <= major_set(cs).len(),
{
    let ids = cs.map_values(|c: ContinentFact| c.id).to_set();
    assert(major_set(cs).subset_of(ids)) by {
        assert forall|id: u32| #[trigger] major_set(cs).contains(id) implies ids.contains(id) by {
            let i = choose|i: int| 0 <= i < cs.len() && #[trigger] cs[i].id == id && cs[i].major;
            assert(cs.map_values(|c: ContinentFact| c.id)[i] == id);
        }
    }
    vstd::seq_lib::seq_to_set_is_finite(cs.map_values(|c: ContinentFact| c.id));
    vstd::set_lib::lemma_len_subset(major_set(cs), ids);
    assert(flux_set(cs, cells).subset_of(major_set(cs)));
    vstd::set_lib::lemma_len_subset(flux_set(cs, cells), major_set(cs));
}

/// Recording qualification facts never touches the material balance.
pub proof fn lemma_qualification_keeps_balance(l: MaterialLedger, q: MaterialQualification, m: Seq<char>)
    requires
        ledger_wf(l),
    ensures
        ledger_wf(with_qualification(l, q)),
        spec_unexplained(with_qualification(l, q), m) == spec_unexplained(l, m),
{
}

} // verus!
