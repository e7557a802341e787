//! Finite manifests for mod-defined ore resources.
//!
//! Every loaded mod resource gets exactly one retrogeneration policy record.
//! A resource present at world creation, or one whose policy lets untouched
//! host rock receive it later, also gets a finite deposit account at each of
//! the atlas's generic mod-mineral sites; other policies add no geological
//! mass.

use vstd::prelude::*;
use crate::vector::{MaterialVector, amt, spec_add_vector};
use crate::materials::{
    MaterialLedger, DepositAccount, RetrogenRecord, RetrogenPolicyRecord, ledger_wf, has_retrogen, stable_resource_id,
    spec_resource_hash, scaled, add_vector, seq_sum, lemma_sum_push, f_original, f_unmaterialized, f_underground,
    f_tailings, spec_unexplained, MaterialQualification, MATERIAL_LEDGER_SCHEMA, CANONICAL_INGOT_UNITS,
    manifests_distinct, item_names_distinct, block_names_distinct,
};
use crate::registry::Registry;
use crate::vector::sat_mul;
use crate::text::str_eq;
use vstd::string::StringSliceAdditionalSpecFns;

verus! {

/// A loaded mod ore resource, with the per-block material of its ore block.
pub struct ModOre {
    pub mod_id: String,
    pub resource_key: String,
    pub policy: RetrogenPolicyRecord,
    pub materials: MaterialVector,
}

/// One of the atlas's generic mod-mineral deposit sites.
#[derive(Clone, Copy, Debug, PartialEq, Eq, Structural)]
pub struct ModMineralSite {
    pub id: u32,
    pub tonnage_blocks: u64,
    pub radius_blocks: u16,
    pub grade_ppm: u32,
}

// ---------------------------------------------------------------------------
// Free deposit ids.

/// Ids in the high half of the id space, stepping upward from `start` and
/// wrapping back to the first high id.
pub open spec fn probe(start: u32, k: nat) -> u32 {
    (0x8000_0000 + ((start - 0x8000_0000 + k) % 0x8000_0000)) as u32
}

pub open spec fn id_taken(ds: Seq<DepositAccount>, id: u32) -> bool {
    exists|i: int| 0 <= i < ds.len() && #[trigger] ds[i].id == id
}

/// `r` is the first free id of the probe sequence from `start`.
pub open spec fn first_free_id(ds: Seq<DepositAccount>, start: u32, r: u32) -> bool {
    exists|k: nat| r == probe(start, k) && !id_taken(ds, r) && forall|j: nat| j < k ==> #[trigger] id_taken(ds, probe(start, j))
}

proof fn lemma_probe_step(start: u32, k: nat)
    requires
        start >= 0x8000_0000,
    ensures
        probe(start, k) >= 0x8000_0000,
        probe(start, k + 1) == if probe(start, k) == u32::MAX { 0x8000_0000u32 } else { (probe(start, k) + 1) as u32 },
{
    let a = start - 0x8000_0000 + k;
    let m = 0x8000_0000int;
    assert(a >= 0);
    assert(a == m * (a / m) + a % m && 0 <= a % m < m) by (nonlinear_arith)
        requires
            m > 0,
            a >= 0,
    ;
    assert((a + 1) == m * ((a + 1) / m) + (a + 1) % m && 0 <= (a + 1) % m < m) by (nonlinear_arith)
        requires
            m > 0,
            a >= 0,
    ;
    assert((a + 1) % m == if a % m == m - 1 { 0 } else { a % m + 1 }) by (nonlinear_arith)
        requires
            m > 0,
            a == m * (a / m) + a % m,
            0 <= a % m < m,
            (a + 1) == m * ((a + 1) / m) + (a + 1) % m,
            0 <= (a + 1) % m < m,
    {
        if a % m == m - 1 {
            assert(a + 1 == m * (a / m + 1));
            assert((a + 1) / m == a / m + 1);
        } else {
            assert(a + 1 == m * (a / m) + (a % m + 1));
            assert((a + 1) / m == a / m);
        }
    }
}

proof fn lemma_probe_injective(start: u32, j: nat, k: nat)
    requires
        start >= 0x8000_0000,
        j < k < 0x8000_0000,
    ensures
        probe(start, j) != probe(start, k),
{
    let a = start - 0x8000_0000 + j;
    let b = start - 0x8000_0000 + k;
    let m = 0x8000_0000int;
    assert(a % m != b % m) by (nonlinear_arith)
        requires
            m > 0,
            a >= 0,
            0 < b - a < m,
    {
        assert(a == m * (a / m) + a % m);
        assert(b == m * (b / m) + b % m);
        assert(0 <= a % m < m);
        assert(0 <= b % m < m);
        if a % m == b % m {
            assert(b - a == m * (b / m - a / m));
            if b / m - a / m >= 1 {
                assert(m * (b / m - a / m) >= m);
            } else {
                assert(m * (b / m - a / m) <= 0);
            }
        }
    }
}

/// The first id at or after `start` (a high id) that no deposit holds.
fn free_deposit_id(deposits: &Vec<DepositAccount>, start: u32) -> (r: u32)
    requires
        start >= 0x8000_0000,
        deposits@.len() < 0x8000_0000,
    ensures
        r >= 0x8000_0000,
        first_free_id(deposits@, start, r),
{
    let ghost ids = deposits@.map_values(|d: DepositAccount| d.id);
    let ghost dset = ids.to_set();
    proof {
        ids.lemma_cardinality_of_set();
        vstd::seq_lib::seq_to_set_is_finite(ids);
        assert(probe(start, 0) == start) by {
            assert((start - 0x8000_0000 + 0) % 0x8000_0000int == start - 0x8000_0000) by (nonlinear_arith)
                requires
                    0 <= start - 0x8000_0000 < 0x8000_0000,
            ;
        }
    }
    let mut id = start;
    let ghost mut k: nat = 0;
    let ghost mut probed: Set<u32> = Set::empty();
    while crate::reservation::account_exists(deposits, id)
        invariant
            start >= 0x8000_0000,
            deposits@.len() < 0x8000_0000,
            ids == deposits@.map_values(|d: DepositAccount| d.id),
            dset == ids.to_set(),
            dset.finite(),
            dset.len() <= ids.len(),
            id == probe(start, k),
            probed.finite(),
            probed.len() == k,
            probed.subset_of(dset),
            forall|x: u32| #[trigger] probed.contains(x) <==> exists|j: nat| j < k && x == probe(start, j),
            forall|j: nat| j < k ==> #[trigger] id_taken(deposits@, probe(start, j)),
        decreases dset.len() - probed.len(),
    {
        proof {
            assert(id_taken(deposits@, id));
            let i = choose|i: int| 0 <= i < deposits@.len() && #[trigger] deposits@[i].id == id;
            assert(ids[i] == id);
            assert(dset.contains(id));
            vstd::set_lib::lemma_len_subset(probed, dset);
            assert(k < 0x8000_0000);
            assert(!probed.contains(id)) by {
                if probed.contains(id) {
                    let j = choose|j: nat| j < k && id == probe(start, j);
                    lemma_probe_injective(start, j, k);
                }
            }
            let next = probed.insert(id);
            assert(next.len() == k + 1);
            assert(next.subset_of(dset));
            vstd::set_lib::lemma_len_subset(next, dset);
            assert forall|x: u32| #[trigger] next.contains(x) <==> exists|j: nat| j < k + 1 && x == probe(start, j) by {
                if next.contains(x) && x != id {
                    assert(probed.contains(x));
                }
                if exists|j: nat| j < k + 1 && x == probe(start, j) {
                    let j = choose|j: nat| j < k + 1 && x == probe(start, j);
                    if j < k {
                        assert(probed.contains(x));
                    }
                }
            }
            lemma_probe_step(start, k);
            probed = next;
            k = k + 1;
        }
        id = if id == u32::MAX {
            0x8000_0000
        } else {
            id + 1
        };
    }
    proof {
        lemma_probe_step(start, k);
    }
    id
}

// ---------------------------------------------------------------------------
// Installing one resource.

/// What the policy record says of the resource's availability.
pub open spec fn spec_retrogen_status(post_creation: bool, policy: RetrogenPolicyRecord) -> Seq<char> {
    match policy {
        RetrogenPolicyRecord::UntouchedHostOnly => if post_creation {
            "deterministic untouched-host retrogen pending chunk visits"@
        } else {
            "included in atlas genesis"@
        },
        RetrogenPolicyRecord::SecondaryRecovery => "secondary recovery only; terrain unchanged"@,
        RetrogenPolicyRecord::WorldEvent => "world event required; no mass added yet"@,
        RetrogenPolicyRecord::NoRetrogen => if post_creation {
            "unavailable in this existing world; create a new planet"@
        } else {
            "included in atlas genesis; no later retrogen"@
        },
    }
}

fn retrogen_status(post_creation: bool, policy: RetrogenPolicyRecord) -> (r: String)
    ensures
        r@ == spec_retrogen_status(post_creation, policy),
{
    match policy {
        RetrogenPolicyRecord::UntouchedHostOnly => if post_creation {
            String::from_str("deterministic untouched-host retrogen pending chunk visits")
        } else {
            String::from_str("included in atlas genesis")
        },
        RetrogenPolicyRecord::SecondaryRecovery => String::from_str("secondary recovery only; terrain unchanged"),
        RetrogenPolicyRecord::WorldEvent => String::from_str("world event required; no mass added yet"),
        RetrogenPolicyRecord::NoRetrogen => if post_creation {
            String::from_str("unavailable in this existing world; create a new planet")
        } else {
            String::from_str("included in atlas genesis; no later retrogen")
        },
    }
}

/// Whether the resource's sites get finite genesis accounts.
pub open spec fn gets_accounts(post_creation: bool, policy: RetrogenPolicyRecord) -> bool {
    !post_creation || policy == RetrogenPolicyRecord::UntouchedHostOnly
}

/// `d` is the fresh finite account of `ore` at `site`.
pub open spec fn fresh_account(d: DepositAccount, ore: ModOre, site: ModMineralSite) -> bool {
    let original = spec_add_vector(Map::empty(), ore.materials@, site.tonnage_blocks as int);
    &&& d.resource_family@ == ore.resource_key@
    &&& d.resource_key@ == ore.resource_key@
    &&& d.radius_blocks == site.radius_blocks
    &&& d.grade_ppm == site.grade_ppm
    &&& d.original_recoverable@ == original
    &&& d.remaining_unmaterialized@ == original
    &&& d.materialized_underground@ == Map::<Seq<char>, u64>::empty()
    &&& d.extracted@ == Map::<Seq<char>, u64>::empty()
    &&& d.tailings_secondary@ == Map::<Seq<char>, u64>::empty()
    &&& !d.discovered
}

/// The accounts appended for `ore`, one per site in order, each with the
/// first free id from the site's stable resource id.
pub open spec fn accounts_appended(before: Seq<DepositAccount>, after: Seq<DepositAccount>, ore: ModOre, sites: Seq<ModMineralSite>) -> bool {
    &&& after.len() == before.len() + sites.len()
    &&& after.take(before.len() as int) == before
    &&& forall|t: int| 0 <= t < sites.len() ==> {
        let d = #[trigger] after[before.len() + t];
        &&& fresh_account(d, ore, sites[t])
        &&& first_free_id(
            after.take(before.len() + t),
            spec_resource_hash(vstd::utf8::encode_utf8(ore.resource_key@), sites[t].id) | 0x8000_0000u32,
            d.id,
        )
    }
}

/// The mass the accounts add, summed in site order.
pub open spec fn sites_mass(ore: ModOre, sites: Seq<ModMineralSite>) -> Map<Seq<char>, u64>
    decreases sites.len(),
{
    if sites.len() == 0 {
        Map::empty()
    } else {
        spec_add_vector(
            sites_mass(ore, sites.drop_last()),
            spec_add_vector(Map::empty(), ore.materials@, sites.last().tonnage_blocks as int),
            1,
        )
    }
}

pub open spec fn with_resources(l: MaterialLedger, d: Vec<DepositAccount>, r: Vec<RetrogenRecord>) -> MaterialLedger {
    MaterialLedger { deposits: d, retrogen: r, ..l }
}

fn has_retrogen_key(records: &Vec<RetrogenRecord>, key: &str) -> (r: bool)
    ensures
        r == exists|i: int| 0 <= i < records@.len() && #[trigger] records@[i].resource_key@ == key@,
{
    let mut i: usize = 0;
    while i < records.len()
        invariant
            i <= records@.len(),
            forall|j: int| 0 <= j < i ==> records@[j].resource_key@ != key@,
        decreases records@.len() - i,
    {
        if str_eq(records[i].resource_key.as_str(), key) {
            return true;
        }
        i = i + 1;
    }
    false
}

impl MaterialLedger {
    /// Install the manifest of one mod ore resource: nothing for `base`
    /// content or a resource that already has a policy record; otherwise a
    /// policy record, and, where the resource exists from genesis or its
    /// policy lets untouched host rock receive it, one finite account per
    /// generic mod-mineral site. Returns whether anything was installed.
    #[verifier::rlimit(60)]
    #[verifier::spinoff_prover]
    pub fn install_mod_resource(&mut self, ore: &ModOre, sites: &Vec<ModMineralSite>, post_creation: bool) -> (changed: bool)
        requires
            ledger_wf(*old(self)),
            old(self).deposits@.len() + sites@.len() < 0x8000_0000,
        ensures
            ledger_wf(*final(self)),
            *final(self) == with_resources(*old(self), final(self).deposits, final(self).retrogen),
            ore.mod_id@ == "base"@ || has_retrogen(*old(self), ore.resource_key@) ==> !changed
                && final(self).deposits@ == old(self).deposits@ && final(self).retrogen@ == old(self).retrogen@,
            !(ore.mod_id@ == "base"@ || has_retrogen(*old(self), ore.resource_key@)) ==> {
                let rec = final(self).retrogen@.last();
                &&& changed
                &&& final(self).retrogen@.len() == old(self).retrogen@.len() + 1
                &&& final(self).retrogen@.drop_last() == old(self).retrogen@
                &&& rec.mod_id@ == ore.mod_id@
                &&& rec.resource_key@ == ore.resource_key@
                &&& rec.policy == ore.policy
                &&& rec.algorithm_version == 1
                &&& rec.unit_materials@ == ore.materials@
                &&& rec.applied_chunks@.len() == 0
                &&& rec.status@ == spec_retrogen_status(post_creation, ore.policy)
                &&& gets_accounts(post_creation, ore.policy) ==> accounts_appended(old(self).deposits@, final(self).deposits@, *ore, sites@)
                    && rec.added_mass@ == sites_mass(*ore, sites@)
                &&& !gets_accounts(post_creation, ore.policy) ==> final(self).deposits@ == old(self).deposits@
                    && rec.added_mass@ == Map::<Seq<char>, u64>::empty()
            },
            forall|m: Seq<char>| #[trigger] spec_unexplained(*final(self), m) == spec_unexplained(*old(self), m),
    {
        proof {
            reveal_strlit("base");
        }
        if str_eq(ore.mod_id.as_str(), "base") {
            return false;
        }
        if has_retrogen_key(&self.retrogen, ore.resource_key.as_str()) {
            return false;
        }
        let ghost l0 = *self;
        let mut added = MaterialVector::new();
        if !post_creation || ore.policy == RetrogenPolicyRecord::UntouchedHostOnly {
            let mut t: usize = 0;
            assert(sites@.take(0) =~= Seq::<ModMineralSite>::empty());
            assert(self.deposits@.take(l0.deposits@.len() as int) =~= l0.deposits@);
            while t < sites.len()
                invariant
                    t <= sites@.len(),
                    l0.deposits@.len() + sites@.len() < 0x8000_0000,
                    ledger_wf(*self),
                    *self == with_resources(l0, self.deposits, self.retrogen),
                    self.retrogen@ == l0.retrogen@,
                    self.deposits@.len() == l0.deposits@.len() + t,
                    self.deposits@.take(l0.deposits@.len() as int) == l0.deposits@,
                    forall|u: int| 0 <= u < t ==> {
                        let d = #[trigger] self.deposits@[l0.deposits@.len() + u];
                        &&& fresh_account(d, *ore, sites@[u])
                        &&& first_free_id(
                            self.deposits@.take(l0.deposits@.len() + u),
                            spec_resource_hash(vstd::utf8::encode_utf8(ore.resource_key@), sites@[u].id) | 0x8000_0000u32,
                            d.id,
                        )
                    },
                    added@ == sites_mass(*ore, sites@.take(t as int)),
                    forall|m: Seq<char>| #[trigger] spec_unexplained(*self, m) == spec_unexplained(l0, m),
                decreases sites@.len() - t,
            {
                let site = sites[t];
                let start = stable_resource_id(ore.resource_key.as_str(), site.id);
                assert(forall|h: u32| #[trigger] (h | 0x8000_0000u32) >= 0x8000_0000u32) by (bit_vector);
                assert(start >= 0x8000_0000);
                let id = free_deposit_id(&self.deposits, start);
                let original = scaled(&ore.materials, site.tonnage_blocks);
                proof {
                    assert(sites@.take(t + 1).drop_last() =~= sites@.take(t as int));
                    assert(sites@.take(t + 1).last() == site);
                }
                add_vector(&mut added, &original, 1);
                let account = DepositAccount {
                    id,
                    resource_family: ore.resource_key.clone(),
                    resource_key: ore.resource_key.clone(),
                    radius_blocks: site.radius_blocks,
                    grade_ppm: site.grade_ppm,
                    original_recoverable: original.duplicate(),
                    materialized_underground: MaterialVector::new(),
                    extracted: MaterialVector::new(),
                    remaining_unmaterialized: original,
                    tailings_secondary: MaterialVector::new(),
                    discovered: false,
                };
                let ghost before = self.deposits@;
                let ghost prev = *self;
                let ghost acct = account;
                self.deposits.push(account);
                proof {
                    let after = self.deposits@;
                    let n0 = l0.deposits@.len();
                    assert(after == before.push(acct));
                    assert(after.take(n0 as int) =~= before.take(n0 as int));
                    assert(after.take(n0 + t) =~= before);
                    assert forall|u: int| 0 <= u < t + 1 implies {
                        let d = #[trigger] after[n0 + u];
                        &&& fresh_account(d, *ore, sites@[u])
                        &&& first_free_id(
                            after.take(n0 + u),
                            spec_resource_hash(vstd::utf8::encode_utf8(ore.resource_key@), sites@[u].id) | 0x8000_0000u32,
                            d.id,
                        )
                    } by {
                        if u < t {
                            assert(after[n0 + u] == before[n0 + u]);
                            assert(after.take(n0 + u) =~= before.take(n0 + u));
                        } else {
                            assert(after[n0 + u] == acct);
                            assert(after.take(n0 + u) =~= before);
                        }
                    }
                    assert forall|i: int, j: int| 0 <= i < after.len() && 0 <= j < after.len() && i != j implies after[i].id != after[j].id by {
                        if i == before.len() && j < before.len() {
                            assert(after[j] == before[j]);
                            assert(id_taken(before, after[j].id));
                        } else if j == before.len() && i < before.len() {
                            assert(after[i] == before[i]);
                            assert(id_taken(before, after[i].id));
                        } else if i < before.len() && j < before.len() {
                            assert(after[i] == before[i]);
                            assert(after[j] == before[j]);
                        }
                    }
                    assert forall|m: Seq<char>| #[trigger] spec_unexplained(*self, m) == spec_unexplained(l0, m) by {
                        assert(spec_unexplained(prev, m) == spec_unexplained(l0, m));
                        lemma_sum_push(before, acct, f_original(m));
                        lemma_sum_push(before, acct, f_unmaterialized(m));
                        lemma_sum_push(before, acct, f_underground(m));
                        lemma_sum_push(before, acct, f_tailings(m));
                        assert(amt(acct.materialized_underground@, m) == 0);
                        assert(amt(acct.tailings_secondary@, m) == 0);
                    }
                }
                t = t + 1;
            }
            proof {
                assert(sites@.take(sites@.len() as int) =~= sites@);
            }
        }
        let record = RetrogenRecord {
            mod_id: ore.mod_id.clone(),
            resource_key: ore.resource_key.clone(),
            policy: ore.policy,
            algorithm_version: 1,
            added_mass: added,
            unit_materials: ore.materials.duplicate(),
            applied_chunks: Vec::new(),
            status: retrogen_status(post_creation, ore.policy),
        };
        let ghost prev = *self;
        self.retrogen.push(record);
        proof {
            assert forall|m: Seq<char>| #[trigger] spec_unexplained(*self, m) == spec_unexplained(l0, m) by {
                assert(spec_unexplained(prev, m) == spec_unexplained(l0, m));
            }
        }
        true
    }
}

/// Every loaded mod resource already has its policy record.
pub open spec fn ores_covered(l: MaterialLedger, ores: Seq<ModOre>) -> bool {
    forall|i: int| 0 <= i < ores.len() && (#[trigger] ores[i]).mod_id@ != "base"@ ==> has_retrogen(l, ores[i].resource_key@)
}

impl MaterialLedger {
    /// Install genesis manifests or post-creation policy records for every
    /// loaded mod resource (see `install_mod_resource`), in order. The world
    /// is past creation when its saved content hash differs from the loaded
    /// content's. Returns whether anything was installed.
    pub fn reconcile_mod_manifests(&mut self, ores: &Vec<ModOre>, sites: &Vec<ModMineralSite>, content_hash: u64) -> (changed: bool)
        requires
            ledger_wf(*old(self)),
            old(self).deposits@.len() + ores@.len() * sites@.len() < 0x8000_0000,
        ensures
            ledger_wf(*final(self)),
            *final(self) == with_resources(*old(self), final(self).deposits, final(self).retrogen),
            final(self).retrogen@.len() >= old(self).retrogen@.len(),
            final(self).retrogen@.take(old(self).retrogen@.len() as int) == old(self).retrogen@,
            final(self).deposits@.len() >= old(self).deposits@.len(),
            final(self).deposits@.take(old(self).deposits@.len() as int) == old(self).deposits@,
            changed <==> final(self).retrogen@.len() > old(self).retrogen@.len(),
            forall|i: int| 0 <= i < ores@.len() && (#[trigger] ores@[i]).mod_id@ != "base"@ ==> has_retrogen(*final(self), ores@[i].resource_key@),
            forall|i: int| old(self).retrogen@.len() <= i < final(self).retrogen@.len() ==> exists|j: int| 0 <= j < ores@.len()
                && (#[trigger] final(self).retrogen@[i]).resource_key@ == ores@[j].resource_key@ && ores@[j].mod_id@ != "base"@,
            forall|m: Seq<char>| #[trigger] spec_unexplained(*final(self), m) == spec_unexplained(*old(self), m),
            forall|k: int| old(self).retrogen@.len() <= k < final(self).retrogen@.len() && !gets_accounts(
                old(self).content_hash != content_hash,
                (#[trigger] final(self).retrogen@[k]).policy,
            ) ==> final(self).retrogen@[k].added_mass@ == Map::<Seq<char>, u64>::empty(),
            ores_covered(*old(self), ores@) ==> !changed && final(self).deposits@ == old(self).deposits@
                && final(self).retrogen@ == old(self).retrogen@,
    {
        let post_creation = self.content_hash != content_hash;
        let ghost l0 = *self;
        let mut changed = false;
        let mut i: usize = 0;
        assert(self.retrogen@.take(l0.retrogen@.len() as int) =~= l0.retrogen@);
        assert(self.deposits@.take(l0.deposits@.len() as int) =~= l0.deposits@);
        while i < ores.len()
            invariant
                i <= ores@.len(),
                ledger_wf(*self),
                *self == with_resources(l0, self.deposits, self.retrogen),
                l0.deposits@.len() + ores@.len() * sites@.len() < 0x8000_0000,
                self.deposits@.len() <= l0.deposits@.len() + i * sites@.len(),
                self.retrogen@.len() >= l0.retrogen@.len(),
                self.retrogen@.take(l0.retrogen@.len() as int) == l0.retrogen@,
                self.deposits@.len() >= l0.deposits@.len(),
                self.deposits@.take(l0.deposits@.len() as int) == l0.deposits@,
                changed <==> self.retrogen@.len() > l0.retrogen@.len(),
                forall|k: int| 0 <= k < i && (#[trigger] ores@[k]).mod_id@ != "base"@ ==> has_retrogen(*self, ores@[k].resource_key@),
                forall|k: int| l0.retrogen@.len() <= k < self.retrogen@.len() ==> exists|j: int| 0 <= j < ores@.len()
                    && (#[trigger] self.retrogen@[k]).resource_key@ == ores@[j].resource_key@ && ores@[j].mod_id@ != "base"@,
                forall|m: Seq<char>| #[trigger] spec_unexplained(*self, m) == spec_unexplained(l0, m),
                ores_covered(l0, ores@) ==> !changed && self.deposits@ == l0.deposits@ && self.retrogen@ == l0.retrogen@,
                post_creation == (l0.content_hash != content_hash),
                forall|k: int| l0.retrogen@.len() <= k < self.retrogen@.len() && !gets_accounts(
                    post_creation,
                    (#[trigger] self.retrogen@[k]).policy,
                ) ==> self.retrogen@[k].added_mass@ == Map::<Seq<char>, u64>::empty(),
            decreases ores@.len() - i,
        {
            let ghost prev = *self;
            proof {
                assert(i * sites@.len() + sites@.len() <= ores@.len() * sites@.len()) by (nonlinear_arith)
                    requires
                        i < ores@.len(),
                ;
            }
            if self.install_mod_resource(&ores[i], sites, post_creation) {
                changed = true;
            }
            proof {
                assert forall|k: int| l0.retrogen@.len() <= k < self.retrogen@.len() && !gets_accounts(
                    post_creation,
                    (#[trigger] self.retrogen@[k]).policy,
                ) implies self.retrogen@[k].added_mass@ == Map::<Seq<char>, u64>::empty() by {
                    if k < prev.retrogen@.len() {
                        if self.retrogen@.len() > prev.retrogen@.len() {
                            assert(self.retrogen@[k] == self.retrogen@.drop_last()[k]);
                        }
                        assert(self.retrogen@[k] == prev.retrogen@[k]);
                    }
                }
                if ores_covered(l0, ores@) {
                    if ores@[i as int].mod_id@ != "base"@ {
                        assert(has_retrogen(l0, ores@[i as int].resource_key@));
                        let j = choose|j: int| 0 <= j < l0.retrogen@.len() && l0.retrogen@[j].resource_key@ == ores@[i as int].resource_key@;
                        assert(prev.retrogen@[j] == l0.retrogen@[j]);
                        assert(has_retrogen(prev, ores@[i as int].resource_key@));
                    }
                }
                assert((i + 1) * sites@.len() == i * sites@.len() + sites@.len()) by (nonlinear_arith);
                assert(self.deposits@.take(l0.deposits@.len() as int) =~= l0.deposits@) by {
                    assert(self.deposits@.take(prev.deposits@.len() as int) == prev.deposits@);
                    assert forall|k: int| 0 <= k < l0.deposits@.len() implies self.deposits@[k] == l0.deposits@[k] by {
                        assert(self.deposits@.take(prev.deposits@.len() as int)[k] == prev.deposits@[k]);
                        assert(prev.deposits@.take(l0.deposits@.len() as int)[k] == l0.deposits@[k]);
                    }
                }
                assert(self.retrogen@.take(l0.retrogen@.len() as int) =~= l0.retrogen@) by {
                    if self.retrogen@.len() > prev.retrogen@.len() {
                        assert(self.retrogen@.drop_last() == prev.retrogen@);
                        assert(self.retrogen@.take(l0.retrogen@.len() as int) =~= prev.retrogen@.take(l0.retrogen@.len() as int));
                    }
                }
                assert forall|k: int| 0 <= k < i + 1 && (#[trigger] ores@[k]).mod_id@ != "base"@ implies has_retrogen(*self, ores@[k].resource_key@) by {
                    if k < i {
                        assert(has_retrogen(prev, ores@[k].resource_key@));
                        let j = choose|j: int| 0 <= j < prev.retrogen@.len() && prev.retrogen@[j].resource_key@ == ores@[k].resource_key@;
                        if self.retrogen@.len() > prev.retrogen@.len() {
                            assert(self.retrogen@[j] == self.retrogen@.drop_last()[j]);
                        }
                        assert(self.retrogen@[j] == prev.retrogen@[j]);
                    } else {
                        if !has_retrogen(prev, ores@[k].resource_key@) {
                            assert(self.retrogen@[self.retrogen@.len() - 1].resource_key@ == ores@[k].resource_key@);
                        } else {
                            let j = choose|j: int| 0 <= j < prev.retrogen@.len() && prev.retrogen@[j].resource_key@ == ores@[k].resource_key@;
                            assert(self.retrogen@[j] == prev.retrogen@[j]);
                        }
                    }
                }
                assert forall|k: int| l0.retrogen@.len() <= k < self.retrogen@.len() implies exists|j: int| 0 <= j < ores@.len()
                    && (#[trigger] self.retrogen@[k]).resource_key@ == ores@[j].resource_key@ && ores@[j].mod_id@ != "base"@ by {
                    if k < prev.retrogen@.len() {
                        if self.retrogen@.len() > prev.retrogen@.len() {
                            assert(self.retrogen@[k] == self.retrogen@.drop_last()[k]);
                        }
                        assert(self.retrogen@[k] == prev.retrogen@[k]);
                    } else {
                        assert(self.retrogen@[k].resource_key@ == ores@[i as int].resource_key@);
                    }
                }
                assert forall|m: Seq<char>| #[trigger] spec_unexplained(*self, m) == spec_unexplained(l0, m) by {
                    assert(spec_unexplained(prev, m) == spec_unexplained(l0, m));
                }
            }
            i = i + 1;
        }
        changed
    }
}

// ---------------------------------------------------------------------------
// A new world's ledger.

/// A geological deposit of the planet atlas: its id, the resource names the
/// atlas gives its mineral, the material one block of that mineral holds,
/// and its extent.
pub struct GenesisDeposit {
    pub id: u32,
    pub resource_family: String,
    pub resource_key: String,
    pub per_block: MaterialVector,
    pub tonnage_blocks: u64,
    pub radius_blocks: u16,
    pub grade_ppm: u32,
    /// A geode: quartz, amethyst and sulfur are each a finite band of it.
    pub geode: bool,
}

/// Everything the deposit can ever yield.
pub open spec fn genesis_original(g: GenesisDeposit) -> Map<Seq<char>, u64> {
    let base = spec_add_vector(Map::empty(), g.per_block@, g.tonnage_blocks as int);
    let band = sat_mul(g.tonnage_blocks as int, CANONICAL_INGOT_UNITS as int) as u64;
    if g.geode {
        base.insert("quartz"@, band).insert("amethyst"@, band).insert("sulfur"@, band)
    } else {
        base
    }
}

pub open spec fn genesis_account(d: DepositAccount, g: GenesisDeposit) -> bool {
    &&& d.id == g.id
    &&& d.resource_family@ == g.resource_family@
    &&& d.resource_key@ == g.resource_key@
    &&& d.radius_blocks == g.radius_blocks
    &&& d.grade_ppm == g.grade_ppm
    &&& d.original_recoverable@ == genesis_original(g)
    &&& d.remaining_unmaterialized@ == genesis_original(g)
    &&& d.materialized_underground@ == Map::<Seq<char>, u64>::empty()
    &&& d.extracted@ == Map::<Seq<char>, u64>::empty()
    &&& d.tailings_secondary@ == Map::<Seq<char>, u64>::empty()
    &&& !d.discovered
}

pub open spec fn genesis_ids_distinct(gs: Seq<GenesisDeposit>) -> bool {
    forall|i: int, j: int| 0 <= i < gs.len() && 0 <= j < gs.len() && i != j ==> gs[i].id != gs[j].id
}

fn genesis_original_of(g: &GenesisDeposit) -> (r: MaterialVector)
    ensures
        r@ == genesis_original(*g),
{
    let mut original = scaled(&g.per_block, g.tonnage_blocks);
    if g.geode {
        let band = crate::vector::saturating_mul(g.tonnage_blocks, CANONICAL_INGOT_UNITS);
        original.insert("quartz", band);
        original.insert("amethyst", band);
        original.insert("sulfur", band);
    }
    original
}

impl MaterialLedger {
    /// The ledger of a new world: one untouched finite account per atlas
    /// deposit, empty compartments, mod resource manifests installed (the
    /// world is past creation when the atlas's content hash differs from the
    /// loaded content's), every material definition's identity saved, and
    /// the atlas's qualification recorded. Nothing is unexplained.
    pub fn initialize(
        deposits: &Vec<GenesisDeposit>,
        atlas_content_hash: u64,
        content_hash: u64,
        ores: &Vec<ModOre>,
        sites: &Vec<ModMineralSite>,
        reg: &Registry,
        qualification: MaterialQualification,
    ) -> (l: MaterialLedger)
        requires
            genesis_ids_distinct(deposits@),
            deposits@.len() + ores@.len() * sites@.len() < 0x8000_0000,
            item_names_distinct(reg),
            block_names_distinct(reg),
        ensures
            ledger_wf(l),
            l.schema_version == MATERIAL_LEDGER_SCHEMA,
            l.content_hash == atlas_content_hash,
            l.next_operation_id == 1 && l.last_applied_operation == 0 && l.last_delta_seq == 0,
            l.qualification == qualification,
            l.deposits@.len() >= deposits@.len(),
            forall|i: int| 0 <= i < deposits@.len() ==> genesis_account(#[trigger] l.deposits@[i], deposits@[i]),
            l.chunk_reservations@.len() == 0 && l.placed_positions@.len() == 0 && l.salvage@.len() == 0
                && l.external_sources@.len() == 0,
            l.circulating@ == Map::<Seq<char>, u64>::empty() && l.placed@ == Map::<Seq<char>, u64>::empty()
                && l.secondary_physical@ == Map::<Seq<char>, u64>::empty() && l.explicit_consumption@ == Map::<
                Seq<char>,
                u64,
            >::empty() && l.explicit_loss@ == Map::<Seq<char>, u64>::empty() && l.external_additions@ == Map::<
                Seq<char>,
                u64,
            >::empty(),
            forall|i: int| 0 <= i < ores@.len() && (#[trigger] ores@[i]).mod_id@ != "base"@ ==> has_retrogen(l, ores@[i].resource_key@),
            forall|m: Seq<char>| #[trigger] spec_unexplained(l, m) == 0,
    {
        let mut accounts: Vec<DepositAccount> = Vec::new();
        let mut i: usize = 0;
        while i < deposits.len()
            invariant
                i <= deposits@.len(),
                genesis_ids_distinct(deposits@),
                accounts@.len() == i,
                forall|k: int| 0 <= k < i ==> genesis_account(#[trigger] accounts@[k], deposits@[k]),
            decreases deposits@.len() - i,
        {
            let g = &deposits[i];
            let original = genesis_original_of(g);
            let account = DepositAccount {
                id: g.id,
                resource_family: g.resource_family.clone(),
                resource_key: g.resource_key.clone(),
                radius_blocks: g.radius_blocks,
                grade_ppm: g.grade_ppm,
                original_recoverable: original.duplicate(),
                materialized_underground: MaterialVector::new(),
                extracted: MaterialVector::new(),
                remaining_unmaterialized: original,
                tailings_secondary: MaterialVector::new(),
                discovered: false,
            };
            accounts.push(account);
            i = i + 1;
        }
        let mut ledger = MaterialLedger {
            schema_version: MATERIAL_LEDGER_SCHEMA,
            content_hash: atlas_content_hash,
            deposits: accounts,
            chunk_reservations: Vec::new(),
            placed_positions: Vec::new(),
            circulating: MaterialVector::new(),
            secondary_physical: MaterialVector::new(),
            placed: MaterialVector::new(),
            salvage: Vec::new(),
            explicit_consumption: MaterialVector::new(),
            explicit_loss: MaterialVector::new(),
            external_additions: MaterialVector::new(),
            external_sources: Vec::new(),
            retrogen: Vec::new(),
            item_manifests: Vec::new(),
            block_manifests: Vec::new(),
            qualification,
            next_operation_id: 1,
            last_applied_operation: 0,
            last_delta_seq: 0,
        };
        proof {
            assert forall|m: Seq<char>| #[trigger] spec_unexplained(ledger, m) == 0 by {
                lemma_genesis_balanced(ledger.deposits@, m);
                assert(seq_sum(ledger.salvage@, crate::materials::f_pool(m)) == 0);
            }
            assert(manifests_distinct(ledger.item_manifests@));
            assert(manifests_distinct(ledger.block_manifests@));
        }
        let ghost before = ledger;
        ledger.reconcile_mod_manifests(ores, sites, content_hash);
        proof {
            assert forall|k: int| 0 <= k < deposits@.len() implies genesis_account(#[trigger] ledger.deposits@[k], deposits@[k]) by {
                assert(ledger.deposits@.take(before.deposits@.len() as int)[k] == before.deposits@[k]);
            }
        }
        let ghost mid = ledger;
        ledger.reconcile_saved_definitions(reg);
        proof {
            assert forall|m: Seq<char>| #[trigger] spec_unexplained(ledger, m) == 0 by {
                assert(spec_unexplained(mid, m) == spec_unexplained(before, m));
                assert(spec_unexplained(before, m) == 0);
            }
        }
        ledger
    }
}

proof fn lemma_genesis_balanced(ds: Seq<DepositAccount>, m: Seq<char>)
    requires
        forall|i: int| 0 <= i < ds.len() ==> (#[trigger] ds[i]).original_recoverable@ == ds[i].remaining_unmaterialized@
            && ds[i].materialized_underground@ == Map::<Seq<char>, u64>::empty()
            && ds[i].tailings_secondary@ == Map::<Seq<char>, u64>::empty(),
    ensures
        seq_sum(ds, f_original(m)) == seq_sum(ds, f_unmaterialized(m)),
        seq_sum(ds, f_underground(m)) == 0,
        seq_sum(ds, f_tailings(m)) == 0,
    decreases ds.len(),
{
    if ds.len() > 0 {
        let p = ds.drop_last();
        assert forall|i: int| 0 <= i < p.len() implies (#[trigger] p[i]).original_recoverable@ == p[i].remaining_unmaterialized@
            && p[i].materialized_underground@ == Map::<Seq<char>, u64>::empty()
            && p[i].tailings_secondary@ == Map::<Seq<char>, u64>::empty() by {
            assert(p[i] == ds[i]);
        }
        lemma_genesis_balanced(p, m);
        assert(ds[ds.len() - 1] == ds.last());
    }
}

} // verus!
