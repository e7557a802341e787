//! Finite-material conservation ledger, salvage pools and audit.
//!
//! The ledger tracks economically meaningful integer units. Geological
//! material begins in an immutable deposit account and can only move between
//! named compartments or an explicit sink or source. Every journaled action
//! keeps, for each material, the sum of the sources (original deposits and
//! external additions) equal to the sum of the compartments.

use vstd::prelude::*;
use crate::vector::{MaterialVector, amt, spec_add_vector, sat_add, sat_mul, no_zero};
use crate::planet::{BlockPos, ChunkPos, Face, spec_chunk_of};
use crate::text::{push_decimal, spec_decimal, find_char, spec_first_index_of, spec_ends_with, ends_with, str_eq, str_contains, spec_contains_seq, trim_end_char, spec_trim_end};
use crate::registry::{ItemId, Registry};
use crate::inventory::ItemStack;
use vstd::string::StringSliceAdditionalSpecFns;

verus! {

/// Why a ledger operation was refused.
#[derive(Debug, PartialEq, Eq)]
pub enum LedgerError {
    /// A compartment holds less of `material` than must leave it.
    Underflow { material: String, available: u64, needed: u64 },
    /// A mined finite block lies in a chunk that has no reservation.
    MissingReservation,
    /// A mined finite block is not part of its chunk's reservation.
    AbsentFromReservation,
    /// Every reserved block of this kind in the chunk was already mined.
    ReservationExhausted,
    /// A reservation names a deposit account that does not exist.
    MissingDeposit,
    /// A deposit's materialized underground stock lacks a mined material.
    DepositLacks { deposit: u32, material: String },
    /// A salvage recovery claims more output than material processed.
    RecoveryExceedsProcessed,
    /// A salvage pool holds less of `material` than a recovery processes.
    SalvageShort { material: String, available: u64, needed: u64 },
    /// The salvage pool of a recovery does not exist.
    PoolMissing,
    /// The deposits near a chunk cannot fund its finite blocks.
    NoCapacity { block: String, missing: u32 },
    /// Content changed the saved material identity of a definition.
    IdentityChanged { name: String },
    /// A delta record's payload does not fit a 32-bit length.
    RecordTooLarge,
    /// The journal skips a sequence number.
    SequenceGap,
    /// The journal's tail is corrupt or truncated and no pending record
    /// can repair it.
    CorruptTail,
    /// The pending record does not continue the durable sequence.
    PendingDiscontinuous,
}

// ---------------------------------------------------------------------------
// Material vector arithmetic.

/// The view after removing `u` units of `k`; the entry disappears when it
/// reaches exactly zero.
pub open spec fn spec_subtract_one(v: Map<Seq<char>, u64>, k: Seq<char>, u: u64) -> Map<
    Seq<char>,
    u64,
> {
    if amt(v, k) == u {
        v.remove(k)
    } else {
        v.insert(k, (amt(v, k) - u) as u64)
    }
}

/// The view after removing every amount of `s`, where `v` holds enough.
pub open spec fn spec_subtract(v: Map<Seq<char>, u64>, s: Map<Seq<char>, u64>) -> Map<
    Seq<char>,
    u64,
> {
    Map::new(
        |k: Seq<char>| v.contains_key(k) && !(s.contains_key(k) && amt(v, k) == s[k]),
        |k: Seq<char>|
            if s.contains_key(k) {
                (amt(v, k) - s[k]) as u64
            } else {
                v[k]
            },
    )
}

/// `v` holds at least every amount of `s`.
pub open spec fn covers(v: Map<Seq<char>, u64>, s: Map<Seq<char>, u64>) -> bool {
    forall|k: Seq<char>| #[trigger] s.contains_key(k) ==> s[k] <= amt(v, k)
}

/// The shortfall of `v` against `s` at `k`.
pub open spec fn deficit(v: Map<Seq<char>, u64>, s: Map<Seq<char>, u64>, k: Seq<char>) -> int {
    if s.contains_key(k) && amt(v, k) < s[k] {
        s[k] - amt(v, k)
    } else {
        0
    }
}

/// The view of a compartment after removing `s`, where every shortfall was
/// first named as an external addition.
pub open spec fn spec_drain(v: Map<Seq<char>, u64>, s: Map<Seq<char>, u64>) -> Map<
    Seq<char>,
    u64,
> {
    Map::new(
        |k: Seq<char>| v.contains_key(k) && !(s.contains_key(k) && amt(v, k) <= s[k]),
        |k: Seq<char>|
            if s.contains_key(k) {
                (amt(v, k) - s[k]) as u64
            } else {
                v[k]
            },
    )
}

/// The view of the external-addition account after the shortfalls of `v`
/// against `s` were added to it.
pub open spec fn spec_name_shortfall(
    ext: Map<Seq<char>, u64>,
    v: Map<Seq<char>, u64>,
    s: Map<Seq<char>, u64>,
) -> Map<Seq<char>, u64> {
    Map::new(
        |k: Seq<char>| ext.contains_key(k) || deficit(v, s, k) > 0,
        |k: Seq<char>|
            if deficit(v, s, k) > 0 {
                (amt(ext, k) + deficit(v, s, k)) as u64
            } else {
                ext[k]
            },
    )
}

/// Naming every shortfall of `v` against `s` keeps `ext` within `u64`.
pub open spec fn shortfall_fits(
    ext: Map<Seq<char>, u64>,
    v: Map<Seq<char>, u64>,
    s: Map<Seq<char>, u64>,
) -> bool {
    forall|k: Seq<char>| #[trigger] s.contains_key(k) ==> amt(ext, k) + deficit(v, s, k) <= u64::MAX
}

/// `k` is the name of one of the first `i` entries of `s`.
pub open spec fn in_prefix(s: MaterialVector, i: int, k: Seq<char>) -> bool {
    exists|j: int| 0 <= j < i && s.name_at_spec(j) == k
}

/// `v` equals `target` on the names of the first `i` entries of `s`, and
/// `orig` everywhere else.
pub open spec fn agrees_upto(
    v: Map<Seq<char>, u64>,
    orig: Map<Seq<char>, u64>,
    target: Map<Seq<char>, u64>,
    s: MaterialVector,
    i: int,
) -> bool {
    &&& forall|k: Seq<char>|
        #[trigger] v.contains_key(k) == if in_prefix(s, i, k) {
            target.contains_key(k)
        } else {
            orig.contains_key(k)
        }
    &&& forall|k: Seq<char>|
        #[trigger] v.contains_key(k) ==> v[k] == if in_prefix(s, i, k) {
            target[k]
        } else {
            orig[k]
        }
}

pub proof fn lemma_agree_start(orig: Map<Seq<char>, u64>, target: Map<Seq<char>, u64>, s: MaterialVector)
    ensures
        agrees_upto(orig, orig, target, s, 0),
{
}

pub proof fn lemma_agree_step(
    v: Map<Seq<char>, u64>,
    w: Map<Seq<char>, u64>,
    orig: Map<Seq<char>, u64>,
    target: Map<Seq<char>, u64>,
    s: MaterialVector,
    i: int,
)
    requires
        s.consistent(),
        0 <= i < s.spec_len(),
        agrees_upto(v, orig, target, s, i),
        forall|k: Seq<char>|
            k != s.name_at_spec(i) ==> (#[trigger] w.contains_key(k) == v.contains_key(k) && (
            w.contains_key(k) ==> w[k] == v[k])),
        w.contains_key(s.name_at_spec(i)) == target.contains_key(s.name_at_spec(i)),
        w.contains_key(s.name_at_spec(i)) ==> w[s.name_at_spec(i)] == target[s.name_at_spec(i)],
    ensures
        agrees_upto(w, orig, target, s, i + 1),
{
    let n = s.name_at_spec(i);
    assert forall|k: Seq<char>| #[trigger] in_prefix(s, i + 1, k) == (in_prefix(s, i, k) || k == n)
        by {
        if in_prefix(s, i + 1, k) && k != n {
            let j = choose|j: int| 0 <= j < i + 1 && s.name_at_spec(j) == k;
            assert(j != i);
            assert(in_prefix(s, i, k));
        }
        if k == n {
            assert(s.name_at_spec(i) == k);
        }
        if in_prefix(s, i, k) {
            let j = choose|j: int| 0 <= j < i && s.name_at_spec(j) == k;
            assert(s.name_at_spec(j) == k);
        }
    }
    assert(!in_prefix(s, i, n)) by {
        if in_prefix(s, i, n) {
            let j = choose|j: int| 0 <= j < i && s.name_at_spec(j) == n;
            s.lemma_consistent();
        }
    }
}

pub proof fn lemma_agree_finish(
    v: Map<Seq<char>, u64>,
    orig: Map<Seq<char>, u64>,
    target: Map<Seq<char>, u64>,
    s: MaterialVector,
)
    requires
        s.consistent(),
        agrees_upto(v, orig, target, s, s.spec_len() as int),
        forall|k: Seq<char>|
            !s@.contains_key(k) ==> (#[trigger] target.contains_key(k) == orig.contains_key(k) && (
            target.contains_key(k) ==> target[k] == orig[k])),
    ensures
        v == target,
{
    s.lemma_consistent();
    assert forall|k: Seq<char>| #[trigger] v.contains_key(k) == target.contains_key(k) by {
        if s@.contains_key(k) {
            let j = choose|j: int| 0 <= j < s.spec_len() && s.name_at_spec(j) == k;
            assert(in_prefix(s, s.spec_len() as int, k));
        } else {
            if in_prefix(s, s.spec_len() as int, k) {
                let j = choose|j: int| 0 <= j < s.spec_len() && s.name_at_spec(j) == k;
                assert(s@.contains_key(s.name_at_spec(j)));
            }
        }
    }
    assert forall|k: Seq<char>| v.contains_key(k) implies v[k] == target[k] by {
        if s@.contains_key(k) {
            let j = choose|j: int| 0 <= j < s.spec_len() && s.name_at_spec(j) == k;
            assert(in_prefix(s, s.spec_len() as int, k));
        } else {
            if in_prefix(s, s.spec_len() as int, k) {
                let j = choose|j: int| 0 <= j < s.spec_len() && s.name_at_spec(j) == k;
                assert(s@.contains_key(s.name_at_spec(j)));
            }
        }
    }
    assert(v =~= target);
}

/// A new vector holding `mult` copies of `vector`, each amount saturating.
pub fn scaled(vector: &MaterialVector, multiplier: u64) -> (r: MaterialVector)
    ensures
        r@ == spec_add_vector(Map::empty(), vector@, multiplier as int),
{
    let mut out = MaterialVector::new();
    out.add_scaled(vector, multiplier);
    out
}

/// Add `multiplier` copies of `from` into `into`, each amount saturating,
/// then drop zero amounts.
pub fn add_vector(into: &mut MaterialVector, from: &MaterialVector, multiplier: u64)
    ensures
        final(into)@ == spec_add_vector(old(into)@, from@, multiplier as int),
        no_zero(final(into)@),
{
    into.add_scaled(from, multiplier);
}

/// Remove `units` of `material`, refusing to go below zero.
pub fn subtract_one(vector: &mut MaterialVector, material: &str, units: u64) -> (r: Result<
    (),
    LedgerError,
>)
    ensures
        r is Err <==> amt(old(vector)@, material@) < units,
        r is Err ==> final(vector)@ == old(vector)@,
        r is Ok ==> final(vector)@ == spec_subtract_one(old(vector)@, material@, units),
{
    let available = vector.units(material);
    if available < units {
        return Err(
            LedgerError::Underflow { material: material.to_owned(), available, needed: units },
        );
    }
    if available == units {
        vector.remove(material);
    } else {
        vector.insert(material, available - units);
    }
    Ok(())
}

/// Remove every amount of `sub`. Refused, with nothing removed, when
/// `vector` lacks any of them.
pub fn subtract_vector(vector: &mut MaterialVector, sub: &MaterialVector) -> (r: Result<
    (),
    LedgerError,
>)
    ensures
        r is Err <==> !covers(old(vector)@, sub@),
        r is Err ==> final(vector)@ == old(vector)@,
        r is Ok ==> final(vector)@ == spec_subtract(old(vector)@, sub@),
{
    let n = sub.len();
    proof {
        sub.lemma_consistent();
    }
    let mut i: usize = 0;
    while i < n
        invariant
            n == sub.spec_len(),
            sub.consistent(),
            i <= n,
            forall|j: int| 0 <= j < i ==> sub.units_at_spec(j) <= amt(vector@, sub.name_at_spec(j)),
        decreases n - i,
    {
        let name = sub.name_at(i);
        let units = sub.units_at(i);
        let available = vector.units(name);
        if available < units {
            proof {
                sub.lemma_consistent();
                assert(sub@.contains_key(name@));
            }
            return Err(LedgerError::Underflow { material: name.to_owned(), available, needed: units });
        }
        i = i + 1;
    }
    proof {
        sub.lemma_consistent();
        assert forall|k: Seq<char>| #[trigger] sub@.contains_key(k) implies sub@[k] <= amt(
            vector@,
            k,
        ) by {
            let j = choose|j: int| 0 <= j < sub.spec_len() && sub.name_at_spec(j) == k;
        }
    }
    let ghost orig = vector@;
    let ghost target = spec_subtract(orig, sub@);
    proof {
        lemma_agree_start(orig, target, *sub);
    }
    let mut i: usize = 0;
    while i < n
        invariant
            n == sub.spec_len(),
            sub.consistent(),
            i <= n,
            covers(orig, sub@),
            target == spec_subtract(orig, sub@),
            agrees_upto(vector@, orig, target, *sub, i as int),
        decreases n - i,
    {
        let name = sub.name_at(i);
        let units = sub.units_at(i);
        let ghost prev = vector@;
        proof {
            sub.lemma_consistent();
            assert(sub@.contains_key(sub.name_at_spec(i as int)));
            assert(sub@.contains_key(name@) && sub@[name@] == units);
            assert(!in_prefix(*sub, i as int, name@)) by {
                if in_prefix(*sub, i as int, name@) {
                    let j = choose|j: int| 0 <= j < i && sub.name_at_spec(j) == name@;
                }
            }
            assert(amt(prev, name@) == amt(orig, name@));
        }
        let available = vector.units(name);
        if available == units {
            vector.remove(name);
        } else {
            vector.insert(name, available - units);
        }
        proof {
            lemma_agree_step(prev, vector@, orig, target, *sub, i as int);
        }
        i = i + 1;
    }
    proof {
        lemma_agree_finish(vector@, orig, target, *sub);
    }
    Ok(())
}

/// Remove `sub` from a compartment that may hold less than `sub` because
/// material entered play from outside the ledger (ruins, trade, admin tools):
/// each shortfall is first named as an external addition.
pub fn subtract_or_external(
    vector: &mut MaterialVector,
    sub: &MaterialVector,
    external: &mut MaterialVector,
)
    requires
        shortfall_fits(old(external)@, old(vector)@, sub@),
    ensures
        final(vector)@ == spec_drain(old(vector)@, sub@),
        final(external)@ == spec_name_shortfall(old(external)@, old(vector)@, sub@),
{
    let n = sub.len();
    let ghost orig = vector@;
    let ghost orig_ext = external@;
    let ghost target = spec_drain(orig, sub@);
    let ghost target_ext = spec_name_shortfall(orig_ext, orig, sub@);
    proof {
        lemma_agree_start(orig, target, *sub);
        lemma_agree_start(orig_ext, target_ext, *sub);
    }
    let mut i: usize = 0;
    while i < n
        invariant
            n == sub.spec_len(),
            sub.consistent(),
            i <= n,
            shortfall_fits(orig_ext, orig, sub@),
            target == spec_drain(orig, sub@),
            target_ext == spec_name_shortfall(orig_ext, orig, sub@),
            agrees_upto(vector@, orig, target, *sub, i as int),
            agrees_upto(external@, orig_ext, target_ext, *sub, i as int),
        decreases n - i,
    {
        let name = sub.name_at(i);
        let units = sub.units_at(i);
        let ghost prev = vector@;
        let ghost prev_ext = external@;
        proof {
            sub.lemma_consistent();
            assert(sub@.contains_key(sub.name_at_spec(i as int)));
            assert(sub@.contains_key(name@) && sub@[name@] == units);
            assert(!in_prefix(*sub, i as int, name@)) by {
                if in_prefix(*sub, i as int, name@) {
                    let j = choose|j: int| 0 <= j < i && sub.name_at_spec(j) == name@;
                }
            }
            assert(amt(prev, name@) == amt(orig, name@));
            assert(amt(prev_ext, name@) == amt(orig_ext, name@));
        }
        let available = vector.units(name);
        if available < units {
            let had = external.units(name);
            external.insert(name, had + (units - available));
            vector.remove(name);
        } else if available == units {
            vector.remove(name);
        } else {
            vector.insert(name, available - units);
        }
        proof {
            lemma_agree_step(prev, vector@, orig, target, *sub, i as int);
            lemma_agree_step(prev_ext, external@, orig_ext, target_ext, *sub, i as int);
        }
        i = i + 1;
    }
    proof {
        lemma_agree_finish(vector@, orig, target, *sub);
        lemma_agree_finish(external@, orig_ext, target_ext, *sub);
    }
}


// ---------------------------------------------------------------------------
// Ledger state.

pub const MATERIAL_LEDGER_SCHEMA: u32 = 1;
/// Units of material in one canonical ingot.
pub const CANONICAL_INGOT_UNITS: u64 = 1200;
/// Complete technology arcs the original deposits must fund pessimistically.
pub const REQUIRED_TECHNOLOGY_ARCS: u64 = 16;
/// Blocks along one edge of a salvage region.
pub const SALVAGE_REGION_BLOCKS: u16 = 256;

/// One finite geological account.
pub struct DepositAccount {
    pub id: u32,
    pub resource_family: String,
    pub resource_key: String,
    pub radius_blocks: u16,
    pub grade_ppm: u32,
    /// Everything the deposit can ever yield.
    pub original_recoverable: MaterialVector,
    /// Reserved for generated ore blocks that are still in the ground.
    pub materialized_underground: MaterialVector,
    /// Mined out of reserved blocks so far.
    pub extracted: MaterialVector,
    /// Not yet assigned to any generated block.
    pub remaining_unmaterialized: MaterialVector,
    pub tailings_secondary: MaterialVector,
    pub discovered: bool,
}

/// `count` ore blocks of a chunk draw on deposit `deposit_id`.
#[derive(Clone, Copy, PartialEq, Eq, Debug, Structural)]
pub struct ReservationSlice {
    pub deposit_id: u32,
    pub count: u32,
}

/// The deposit slices behind one kind of finite block in a chunk.
pub struct BlockReservation {
    pub block: String,
    pub slices: Vec<ReservationSlice>,
}

/// The finite blocks a generated chunk reserved, by stable block name.
pub struct ChunkReservation {
    pub chunk: ChunkPos,
    pub blocks: Vec<BlockReservation>,
}

/// A 256 x 256 column region of one face that pools buried material.
#[derive(Clone, Copy, PartialEq, Eq, Debug, Hash, Structural)]
pub struct SalvageRegion {
    pub face: Face,
    pub u: u8,
    pub v: u8,
}

impl SalvageRegion {
    /// The region holding `pos`.
    pub fn at(pos: BlockPos) -> (r: SalvageRegion)
        ensures
            r == spec_region_at(pos),
    {
        let u = pos.u / SALVAGE_REGION_BLOCKS;
        let v = pos.v / SALVAGE_REGION_BLOCKS;
        SalvageRegion { face: pos.face, u: u as u8, v: v as u8 }
    }
}

pub open spec fn spec_region_at(pos: BlockPos) -> SalvageRegion {
    SalvageRegion {
        face: pos.face,
        u: (pos.u / SALVAGE_REGION_BLOCKS) as u8,
        v: (pos.v / SALVAGE_REGION_BLOCKS) as u8,
    }
}

/// Material buried in one salvage region.
pub struct SalvagePool {
    pub materials: MaterialVector,
    pub events: u64,
    pub last_reason: String,
}

/// The material of a block placed by play or by world generation.
pub struct PlacedBlock {
    pub pos: BlockPos,
    pub materials: MaterialVector,
}

/// Material attributed to one named external source.
pub struct ExternalSource {
    pub source: String,
    pub materials: MaterialVector,
}

#[derive(Clone, Copy, PartialEq, Eq, Debug, Structural)]
pub enum RetrogenPolicyRecord {
    UntouchedHostOnly,
    SecondaryRecovery,
    WorldEvent,
    NoRetrogen,
}

/// What a mod resource added after world creation contributes.
pub struct RetrogenRecord {
    pub mod_id: String,
    pub resource_key: String,
    pub policy: RetrogenPolicyRecord,
    pub algorithm_version: u32,
    pub added_mass: MaterialVector,
    pub unit_materials: MaterialVector,
    pub applied_chunks: Vec<ChunkPos>,
    pub status: String,
}

#[derive(Clone, Copy, PartialEq, Eq, Debug, Structural)]
pub enum MaterialOperationKind {
    MineNatural,
    BreakPlaced,
    Place,
    AuthoredPlace,
}

/// A journaled voxel edit that moves material.
pub struct MaterialOperation {
    pub id: u64,
    pub kind: MaterialOperationKind,
    pub pos: BlockPos,
    /// The pre-edit block name; an authored placement appends a NUL and the
    /// name of its audit source.
    pub before: String,
    pub after: String,
    pub materials: MaterialVector,
}

/// The material-bearing part of a content definition, saved with the world.
pub struct SavedMaterialDefinition {
    pub materials: MaterialVector,
    pub material_class: crate::registry::MaterialClass,
    pub max_stack: u32,
    pub durability: u32,
}

/// A saved definition under its content name.
pub struct SavedDefinitionEntry {
    pub name: String,
    pub definition: SavedMaterialDefinition,
}

/// Planet-wide facts the material qualification reads.
pub struct MaterialQualification {
    pub major_continents: usize,
    pub major_continents_with_flux: usize,
    pub treasure_site_counts: Vec<(String, usize)>,
}

/// The whole ledger. Each list is keyed: deposits by id, reservations by
/// chunk, placed blocks by position, salvage pools by region, external
/// sources and saved definitions by name.
pub struct MaterialLedger {
    pub schema_version: u32,
    pub content_hash: u64,
    pub deposits: Vec<DepositAccount>,
    pub chunk_reservations: Vec<ChunkReservation>,
    pub placed_positions: Vec<PlacedBlock>,
    /// Inventories, containers, item entities and entity cargo.
    pub circulating: MaterialVector,
    /// Scrap, slag and tailings outside any deposit.
    pub secondary_physical: MaterialVector,
    pub placed: MaterialVector,
    pub salvage: Vec<(SalvageRegion, SalvagePool)>,
    pub explicit_consumption: MaterialVector,
    pub explicit_loss: MaterialVector,
    pub external_additions: MaterialVector,
    pub external_sources: Vec<ExternalSource>,
    pub retrogen: Vec<RetrogenRecord>,
    pub item_manifests: Vec<SavedDefinitionEntry>,
    pub block_manifests: Vec<SavedDefinitionEntry>,
    pub qualification: MaterialQualification,
    pub next_operation_id: u64,
    pub last_applied_operation: u64,
    pub last_delta_seq: u64,
}

/// One journaled change of the ledger.
pub enum MaterialDeltaAction {
    Operation(MaterialOperation),
    RecipeLoss(MaterialVector),
    Consumption(MaterialVector),
    Bury { region: SalvageRegion, materials: MaterialVector, from_secondary: bool, reason: String },
    Recover { region: SalvageRegion, material: String, processed: u64, recovered: u64 },
    AdminDeletion(MaterialVector),
    SecondaryOutput(MaterialVector),
    SecondaryRecovery(MaterialVector),
    External { materials: MaterialVector, secondary: bool, source: String },
}

/// A delta with its position in the append journal.
pub struct MaterialDelta {
    pub seq: u64,
    pub action: MaterialDeltaAction,
}

// ---------------------------------------------------------------------------
// Sums over keyed lists.

/// The sum of `f` over `s`.
pub open spec fn seq_sum<T>(s: Seq<T>, f: spec_fn(T) -> int) -> int
    decreases s.len(),
{
    if s.len() == 0 {
        0
    } else {
        seq_sum(s.drop_last(), f) + f(s.last())
    }
}

pub proof fn lemma_sum_push<T>(s: Seq<T>, x: T, f: spec_fn(T) -> int)
    ensures
        seq_sum(s.push(x), f) == seq_sum(s, f) + f(x),
{
    assert(s.push(x).drop_last() =~= s);
}

pub proof fn lemma_sum_update<T>(s: Seq<T>, i: int, x: T, f: spec_fn(T) -> int)
    requires
        0 <= i < s.len(),
    ensures
        seq_sum(s.update(i, x), f) == seq_sum(s, f) - f(s[i]) + f(x),
    decreases s.len(),
{
    if i == s.len() - 1 {
        assert(s.update(i, x).drop_last() =~= s.drop_last());
    } else {
        lemma_sum_update(s.drop_last(), i, x, f);
        assert(s.update(i, x).drop_last() =~= s.drop_last().update(i, x));
    }
}

pub proof fn lemma_sum_zero_frame<T>(s: Seq<T>, t: Seq<T>, f: spec_fn(T) -> int, g: spec_fn(T) -> int)
    requires
        s == t,
        forall|i: int| 0 <= i < s.len() ==> f(s[i]) == g(s[i]),
    ensures
        seq_sum(s, f) == seq_sum(t, g),
    decreases s.len(),
{
    if s.len() > 0 {
        lemma_sum_zero_frame(s.drop_last(), t.drop_last(), f, g);
    }
}

pub open spec fn f_original(m: Seq<char>) -> spec_fn(DepositAccount) -> int {
    |d: DepositAccount| amt(d.original_recoverable@, m) as int
}

pub open spec fn f_unmaterialized(m: Seq<char>) -> spec_fn(DepositAccount) -> int {
    |d: DepositAccount| amt(d.remaining_unmaterialized@, m) as int
}

pub open spec fn f_underground(m: Seq<char>) -> spec_fn(DepositAccount) -> int {
    |d: DepositAccount| amt(d.materialized_underground@, m) as int
}

pub open spec fn f_tailings(m: Seq<char>) -> spec_fn(DepositAccount) -> int {
    |d: DepositAccount| amt(d.tailings_secondary@, m) as int
}

pub open spec fn f_pool(m: Seq<char>) -> spec_fn((SalvageRegion, SalvagePool)) -> int {
    |p: (SalvageRegion, SalvagePool)| amt(p.1.materials@, m) as int
}

/// Total units of `m` that ever entered the ledger: original deposits plus
/// named external additions.
pub open spec fn spec_sources(l: MaterialLedger, m: Seq<char>) -> int {
    seq_sum(l.deposits@, f_original(m)) + amt(l.external_additions@, m)
}

/// Total units of `m` in every compartment and sink.
pub open spec fn spec_accounted(l: MaterialLedger, m: Seq<char>) -> int {
    seq_sum(l.deposits@, f_unmaterialized(m)) + seq_sum(l.deposits@, f_underground(m)) + seq_sum(
        l.deposits@,
        f_tailings(m),
    ) + amt(l.circulating@, m) + amt(l.placed@, m) + amt(l.secondary_physical@, m) + seq_sum(
        l.salvage@,
        f_pool(m),
    ) + amt(l.explicit_consumption@, m) + amt(l.explicit_loss@, m)
}

/// The gap the audit reports for `m`: zero when every unit is explained.
pub open spec fn spec_unexplained(l: MaterialLedger, m: Seq<char>) -> int {
    spec_sources(l, m) - spec_accounted(l, m)
}

/// Keys are unique in every keyed list.
pub open spec fn ledger_wf(l: MaterialLedger) -> bool {
    &&& forall|i: int, j: int|
        0 <= i < l.deposits@.len() && 0 <= j < l.deposits@.len() && i != j ==> l.deposits@[i].id
            != l.deposits@[j].id
    &&& forall|i: int, j: int|
        0 <= i < l.chunk_reservations@.len() && 0 <= j < l.chunk_reservations@.len() && i != j
            ==> l.chunk_reservations@[i].chunk != l.chunk_reservations@[j].chunk
    &&& forall|i: int, j: int|
        0 <= i < l.placed_positions@.len() && 0 <= j < l.placed_positions@.len() && i != j
            ==> l.placed_positions@[i].pos != l.placed_positions@[j].pos
    &&& forall|i: int, j: int|
        0 <= i < l.salvage@.len() && 0 <= j < l.salvage@.len() && i != j ==> l.salvage@[i].0
            != l.salvage@[j].0
    &&& forall|i: int, j: int|
        0 <= i < l.external_sources@.len() && 0 <= j < l.external_sources@.len() && i != j
            ==> l.external_sources@[i].source@ != l.external_sources@[j].source@
    &&& forall|c: int|
        0 <= c < l.chunk_reservations@.len() ==> #[trigger] blocks_wf(l.chunk_reservations@[c])
}

pub open spec fn blocks_wf(r: ChunkReservation) -> bool {
    forall|i: int, j: int|
        0 <= i < r.blocks@.len() && 0 <= j < r.blocks@.len() && i != j ==> r.blocks@[i].block@
            != r.blocks@[j].block@
}


// ---------------------------------------------------------------------------
// Salvage pools.

pub open spec fn has_region(pools: Seq<(SalvageRegion, SalvagePool)>, region: SalvageRegion) -> bool {
    exists|i: int| 0 <= i < pools.len() && pools[i].0 == region
}

pub open spec fn regions_distinct(pools: Seq<(SalvageRegion, SalvagePool)>) -> bool {
    forall|i: int, j: int| 0 <= i < pools.len() && 0 <= j < pools.len() && i != j ==> pools[i].0 != pools[j].0
}

/// The material in `region`'s pool; empty where there is no pool.
pub open spec fn pool_view(pools: Seq<(SalvageRegion, SalvagePool)>, region: SalvageRegion) -> Map<
    Seq<char>,
    u64,
> {
    if has_region(pools, region) {
        pools[choose|i: int| 0 <= i < pools.len() && pools[i].0 == region].1.materials@
    } else {
        Map::empty()
    }
}

/// How many burials `region`'s pool has taken; zero where there is no pool.
pub open spec fn pool_events(pools: Seq<(SalvageRegion, SalvagePool)>, region: SalvageRegion) -> u64 {
    if has_region(pools, region) {
        pools[choose|i: int| 0 <= i < pools.len() && pools[i].0 == region].1.events
    } else {
        0
    }
}

pub(crate) proof fn lemma_pool_view_at(pools: Seq<(SalvageRegion, SalvagePool)>, i: int)
    requires
        regions_distinct(pools),
        0 <= i < pools.len(),
    ensures
        has_region(pools, pools[i].0),
        pool_view(pools, pools[i].0) == pools[i].1.materials@,
        pool_events(pools, pools[i].0) == pools[i].1.events,
{
    let c = choose|c: int| 0 <= c < pools.len() && pools[c].0 == pools[i].0;
    assert(c == i);
}

/// The position of `region`'s pool, if it has one.
pub(crate) fn find_pool(pools: &Vec<(SalvageRegion, SalvagePool)>, region: SalvageRegion) -> (r: Option<usize>)
    ensures
        match r {
            Some(i) => i < pools@.len() && pools@[i as int].0 == region,
            None => !has_region(pools@, region),
        },
{
    let mut i: usize = 0;
    while i < pools.len()
        invariant
            i <= pools@.len(),
            forall|j: int| 0 <= j < i ==> pools@[j].0 != region,
        decreases pools@.len() - i,
    {
        if pools[i].0 == region {
            return Some(i);
        }
        i = i + 1;
    }
    None
}

/// Bury `materials` in `region`'s pool, opening the pool if needed.
fn add_to_pool(
    pools: &mut Vec<(SalvageRegion, SalvagePool)>,
    region: SalvageRegion,
    materials: &MaterialVector,
    reason: &str,
)
    requires
        regions_distinct(old(pools)@),
    ensures
        regions_distinct(final(pools)@),
        has_region(final(pools)@, region),
        pool_view(final(pools)@, region) == spec_add_vector(
            pool_view(old(pools)@, region),
            materials@,
            1,
        ),
        forall|m: Seq<char>|
            #[trigger] seq_sum(final(pools)@, f_pool(m)) == seq_sum(old(pools)@, f_pool(m)) - amt(
                pool_view(old(pools)@, region),
                m,
            ) + amt(pool_view(final(pools)@, region), m),
        forall|r: SalvageRegion| r != region ==> (#[trigger] has_region(final(pools)@, r) == has_region(old(pools)@, r)
            && pool_view(final(pools)@, r) == pool_view(old(pools)@, r)),
        exists|i: int|
            0 <= i < final(pools)@.len() && final(pools)@[i].0 == region && final(pools)@[i].1.last_reason@
                == reason@,
        pool_events(final(pools)@, region) == if pool_events(old(pools)@, region) == u64::MAX {
            u64::MAX
        } else {
            (pool_events(old(pools)@, region) + 1) as u64
        },
{
    let ghost old_pools = pools@;
    match find_pool(pools, region) {
        Some(i) => {
            let (key, mut pool) = pools.remove(i);
            proof {
                lemma_pool_view_at(old_pools, i as int);
            }
            add_vector(&mut pool.materials, materials, 1);
            pool.events = pool.events.saturating_add(1);
            pool.last_reason = reason.to_owned();
            let ghost entry = (key, pool);
            pools.insert(i, (key, pool));
            proof {
                assert(pools@ =~= old_pools.update(i as int, entry));
                assert forall|a: int, b: int| 0 <= a < pools@.len() && 0 <= b < pools@.len() && a != b implies pools@[a].0 != pools@[b].0 by {
                    assert(pools@[a].0 == old_pools[a].0);
                    assert(pools@[b].0 == old_pools[b].0);
                }
                lemma_pool_view_at(pools@, i as int);
                assert forall|m: Seq<char>| #[trigger] seq_sum(pools@, f_pool(m)) == seq_sum(old_pools, f_pool(m)) - amt(
                    pool_view(old_pools, region),
                    m,
                ) + amt(pool_view(pools@, region), m) by {
                    lemma_sum_update(old_pools, i as int, entry, f_pool(m));
                }
                assert forall|r: SalvageRegion| r != region implies (#[trigger] has_region(pools@, r) == has_region(old_pools, r)
                    && pool_view(pools@, r) == pool_view(old_pools, r)) by {
                    if has_region(old_pools, r) {
                        let j = choose|j: int| 0 <= j < old_pools.len() && old_pools[j].0 == r;
                        lemma_pool_view_at(old_pools, j);
                        assert(pools@[j] == old_pools[j]);
                        lemma_pool_view_at(pools@, j);
                    }
                    if has_region(pools@, r) {
                        let j = choose|j: int| 0 <= j < pools@.len() && pools@[j].0 == r;
                        assert(pools@[j] == old_pools[j]);
                    }
                }
            }
        },
        None => {
            let mut fresh = MaterialVector::new();
            add_vector(&mut fresh, materials, 1);
            let pool = SalvagePool { materials: fresh, events: 1, last_reason: reason.to_owned() };
            let ghost entry = (region, pool);
            pools.push((region, pool));
            proof {
                assert(pools@ == old_pools.push(entry));
                assert forall|a: int, b: int| 0 <= a < pools@.len() && 0 <= b < pools@.len() && a != b implies pools@[a].0 != pools@[b].0 by {
                    if a == old_pools.len() {
                        assert(pools@[b] == old_pools[b]);
                    } else if b == old_pools.len() {
                        assert(pools@[a] == old_pools[a]);
                    } else {
                        assert(pools@[a] == old_pools[a]);
                        assert(pools@[b] == old_pools[b]);
                    }
                }
                lemma_pool_view_at(pools@, old_pools.len() as int);
                assert(pool_view(old_pools, region) == Map::<Seq<char>, u64>::empty());
                assert forall|m: Seq<char>| #[trigger] seq_sum(pools@, f_pool(m)) == seq_sum(old_pools, f_pool(m)) - amt(
                    pool_view(old_pools, region),
                    m,
                ) + amt(pool_view(pools@, region), m) by {
                    lemma_sum_push(old_pools, entry, f_pool(m));
                }
                assert forall|r: SalvageRegion| r != region implies (#[trigger] has_region(pools@, r) == has_region(old_pools, r)
                    && pool_view(pools@, r) == pool_view(old_pools, r)) by {
                    if has_region(old_pools, r) {
                        let j = choose|j: int| 0 <= j < old_pools.len() && old_pools[j].0 == r;
                        lemma_pool_view_at(old_pools, j);
                        assert(pools@[j] == old_pools[j]);
                        lemma_pool_view_at(pools@, j);
                    }
                    if has_region(pools@, r) {
                        let j = choose|j: int| 0 <= j < pools@.len() && pools@[j].0 == r;
                        assert(j < old_pools.len());
                        assert(pools@[j] == old_pools[j]);
                    }
                }
            }
        },
    }
}


/// `pools` without the pools that hold nothing, in order.
pub open spec fn drop_empty(s: Seq<(SalvageRegion, SalvagePool)>) -> Seq<(SalvageRegion, SalvagePool)>
    decreases s.len(),
{
    if s.len() == 0 {
        s
    } else if s.last().1.materials@ == Map::<Seq<char>, u64>::empty() {
        drop_empty(s.drop_last())
    } else {
        drop_empty(s.drop_last()).push(s.last())
    }
}

proof fn lemma_drop_empty(s: Seq<(SalvageRegion, SalvagePool)>)
    requires
        regions_distinct(s),
    ensures
        regions_distinct(drop_empty(s)),
        forall|r: SalvageRegion| #[trigger] has_region(drop_empty(s), r) ==> has_region(s, r),
        forall|r: SalvageRegion| #[trigger] pool_view(drop_empty(s), r) == pool_view(s, r),
        forall|m: Seq<char>| #[trigger] seq_sum(drop_empty(s), f_pool(m)) == seq_sum(s, f_pool(m)),
        forall|i: int| 0 <= i < drop_empty(s).len() ==> #[trigger] drop_empty(s)[i].1.materials@ != Map::<Seq<char>, u64>::empty(),
    decreases s.len(),
{
    if s.len() > 0 {
        let p = s.drop_last();
        let l = s.last();
        assert(regions_distinct(p));
        lemma_drop_empty(p);
        let d = drop_empty(p);
        assert(!has_region(p, l.0)) by {
            if has_region(p, l.0) {
                let j = choose|j: int| 0 <= j < p.len() && p[j].0 == l.0;
                assert(s[j].0 == s[s.len() - 1].0);
            }
        }
        assert forall|r: SalvageRegion| #[trigger] pool_view(s, r) == if r == l.0 { l.1.materials@ } else { pool_view(p, r) } by {
            if r == l.0 {
                lemma_pool_view_at(s, s.len() - 1);
            } else {
                if has_region(s, r) {
                    let j = choose|j: int| 0 <= j < s.len() && s[j].0 == r;
                    assert(j < p.len());
                    assert(p[j] == s[j]);
                    lemma_pool_view_at(s, j);
                    lemma_pool_view_at(p, j);
                }
                if has_region(p, r) {
                    let j = choose|j: int| 0 <= j < p.len() && p[j].0 == r;
                    assert(s[j] == p[j]);
                }
            }
        }
        if l.1.materials@ == Map::<Seq<char>, u64>::empty() {
            assert forall|r: SalvageRegion| #[trigger] pool_view(d, r) == pool_view(s, r) by {
                if r == l.0 {
                    assert(!has_region(d, r));
                }
            }
            assert forall|m: Seq<char>| #[trigger] seq_sum(d, f_pool(m)) == seq_sum(s, f_pool(m)) by {
                assert(s.drop_last() == p);
                assert(amt(l.1.materials@, m) == 0);
            }
        } else {
            let e = d.push(l);
            assert(e == drop_empty(s));
            assert forall|a: int, b: int| 0 <= a < e.len() && 0 <= b < e.len() && a != b implies e[a].0 != e[b].0 by {
                if a == d.len() {
                    assert(e[b] == d[b]);
                    assert(has_region(d, d[b].0));
                } else if b == d.len() {
                    assert(e[a] == d[a]);
                    assert(has_region(d, d[a].0));
                } else {
                    assert(e[a] == d[a]);
                    assert(e[b] == d[b]);
                }
            }
            assert forall|r: SalvageRegion| #[trigger] has_region(e, r) implies has_region(s, r) by {
                let j = choose|j: int| 0 <= j < e.len() && e[j].0 == r;
                if j == d.len() {
                    assert(s[s.len() - 1].0 == r);
                } else {
                    assert(e[j] == d[j]);
                    assert(has_region(d, r));
                    let k = choose|k: int| 0 <= k < p.len() && p[k].0 == r;
                    assert(s[k] == p[k]);
                }
            }
            assert forall|r: SalvageRegion| #[trigger] pool_view(e, r) == pool_view(s, r) by {
                if r == l.0 {
                    lemma_pool_view_at(e, d.len() as int);
                    assert(pool_view(s, r) == l.1.materials@);
                } else {
                    assert(pool_view(d, r) == pool_view(p, r));
                    assert(pool_view(s, r) == pool_view(p, r));
                    if has_region(e, r) {
                        let j = choose|j: int| 0 <= j < e.len() && e[j].0 == r;
                        assert(j != d.len());
                        assert(e[j] == d[j]);
                        lemma_pool_view_at(e, j);
                        lemma_pool_view_at(d, j);
                    }
                    if has_region(d, r) {
                        let j = choose|j: int| 0 <= j < d.len() && d[j].0 == r;
                        assert(e[j] == d[j]);
                    }
                }
            }
            assert forall|m: Seq<char>| #[trigger] seq_sum(e, f_pool(m)) == seq_sum(s, f_pool(m)) by {
                lemma_sum_push(d, l, f_pool(m));
            }
            assert forall|i: int| 0 <= i < e.len() implies #[trigger] e[i].1.materials@ != Map::<Seq<char>, u64>::empty() by {
                if i < d.len() {
                    assert(e[i] == d[i]);
                }
            }
        }
    }
}

/// Drop every pool that holds nothing, keeping the order of the rest.
fn retain_nonempty_pools(pools: &mut Vec<(SalvageRegion, SalvagePool)>)
    ensures
        final(pools)@ == drop_empty(old(pools)@),
{
    let mut rest: Vec<(SalvageRegion, SalvagePool)> = Vec::new();
    std::mem::swap(&mut rest, pools);
    let ghost orig = rest@;
    let mut kept: Vec<(SalvageRegion, SalvagePool)> = Vec::new();
    let ghost mut i: int = 0;
    assert(orig.take(0) =~= Seq::<(SalvageRegion, SalvagePool)>::empty());
    while rest.len() > 0
        invariant
            0 <= i <= orig.len(),
            rest@ == orig.skip(i),
            kept@ == drop_empty(orig.take(i)),
        decreases rest@.len(),
    {
        let entry = rest.remove(0);
        proof {
            assert(entry == orig[i]);
            assert(orig.take(i + 1).drop_last() =~= orig.take(i));
            assert(orig.take(i + 1).last() == orig[i]);
            assert(rest@ =~= orig.skip(i + 1));
        }
        if !entry.1.materials.is_empty() {
            kept.push(entry);
        }
        proof {
            i = i + 1;
        }
    }
    proof {
        assert(orig.take(i) =~= orig);
    }
    *pools = kept;
}

// ---------------------------------------------------------------------------
// External sources.

pub open spec fn has_source(s: Seq<ExternalSource>, name: Seq<char>) -> bool {
    exists|i: int| 0 <= i < s.len() && s[i].source@ == name
}

pub open spec fn sources_distinct(s: Seq<ExternalSource>) -> bool {
    forall|i: int, j: int| 0 <= i < s.len() && 0 <= j < s.len() && i != j ==> s[i].source@ != s[j].source@
}

/// The material attributed to source `name`; empty where there is none.
pub open spec fn source_view(s: Seq<ExternalSource>, name: Seq<char>) -> Map<Seq<char>, u64> {
    if has_source(s, name) {
        s[choose|i: int| 0 <= i < s.len() && s[i].source@ == name].materials@
    } else {
        Map::empty()
    }
}

proof fn lemma_source_view_at(s: Seq<ExternalSource>, i: int)
    requires
        sources_distinct(s),
        0 <= i < s.len(),
    ensures
        has_source(s, s[i].source@),
        source_view(s, s[i].source@) == s[i].materials@,
{
    let c = choose|c: int| 0 <= c < s.len() && s[c].source@ == s[i].source@;
    assert(c == i);
}

/// The position of external source `name`, if present.
fn find_source(sources: &Vec<ExternalSource>, name: &str) -> (r: Option<usize>)
    ensures
        match r {
            Some(i) => i < sources@.len() && sources@[i as int].source@ == name@,
            None => !has_source(sources@, name@),
        },
{
    let mut i: usize = 0;
    while i < sources.len()
        invariant
            i <= sources@.len(),
            forall|j: int| 0 <= j < i ==> sources@[j].source@ != name@,
        decreases sources@.len() - i,
    {
        if crate::text::str_eq(sources[i].source.as_str(), name) {
            return Some(i);
        }
        i = i + 1;
    }
    None
}

/// Attribute `materials` to external source `source`.
pub(crate) fn add_to_source(sources: &mut Vec<ExternalSource>, source: &str, materials: &MaterialVector)
    requires
        sources_distinct(old(sources)@),
    ensures
        sources_distinct(final(sources)@),
        source_view(final(sources)@, source@) == spec_add_vector(
            source_view(old(sources)@, source@),
            materials@,
            1,
        ),
        forall|n: Seq<char>| n != source@ ==> #[trigger] source_view(final(sources)@, n) == source_view(old(sources)@, n),
{
    let ghost old_s = sources@;
    let found = find_source(sources, source);
    if let Some(i) = found {
        let mut entry = sources.remove(i);
        proof {
            lemma_source_view_at(old_s, i as int);
        }
        add_vector(&mut entry.materials, materials, 1);
        let ghost e = entry;
        sources.insert(i, entry);
        proof {
            assert(sources@ =~= old_s.update(i as int, e));
            assert forall|a: int, b: int| 0 <= a < sources@.len() && 0 <= b < sources@.len() && a != b implies sources@[a].source@ != sources@[b].source@ by {
                assert(sources@[a].source == old_s[a].source);
                assert(sources@[b].source == old_s[b].source);
            }
            lemma_source_view_at(sources@, i as int);
            assert forall|n: Seq<char>| n != source@ implies #[trigger] source_view(sources@, n) == source_view(old_s, n) by {
                if has_source(old_s, n) {
                    let j = choose|j: int| 0 <= j < old_s.len() && old_s[j].source@ == n;
                    lemma_source_view_at(old_s, j);
                    assert(sources@[j] == old_s[j]);
                    lemma_source_view_at(sources@, j);
                }
                if has_source(sources@, n) {
                    let j = choose|j: int| 0 <= j < sources@.len() && sources@[j].source@ == n;
                    assert(sources@[j] == old_s[j]);
                }
            }
        }
        return;
    }
    let mut fresh = MaterialVector::new();
    add_vector(&mut fresh, materials, 1);
    let entry = ExternalSource { source: source.to_owned(), materials: fresh };
    let ghost e = entry;
    sources.push(entry);
    proof {
        assert(sources@ == old_s.push(e));
        assert forall|a: int, b: int| 0 <= a < sources@.len() && 0 <= b < sources@.len() && a != b implies sources@[a].source@ != sources@[b].source@ by {
            if a == old_s.len() {
                assert(sources@[b] == old_s[b]);
            } else if b == old_s.len() {
                assert(sources@[a] == old_s[a]);
            } else {
                assert(sources@[a] == old_s[a]);
                assert(sources@[b] == old_s[b]);
            }
        }
        lemma_source_view_at(sources@, old_s.len() as int);
        assert(source_view(old_s, source@) == Map::<Seq<char>, u64>::empty());
        assert forall|n: Seq<char>| n != source@ implies #[trigger] source_view(sources@, n) == source_view(old_s, n) by {
            if has_source(old_s, n) {
                let j = choose|j: int| 0 <= j < old_s.len() && old_s[j].source@ == n;
                lemma_source_view_at(old_s, j);
                assert(sources@[j] == old_s[j]);
                lemma_source_view_at(sources@, j);
            }
            if has_source(sources@, n) {
                let j = choose|j: int| 0 <= j < sources@.len() && sources@[j].source@ == n;
                assert(j < old_s.len());
                assert(sources@[j] == old_s[j]);
            }
        }
    }
}


// ---------------------------------------------------------------------------
// Delta actions.

/// Adding `b` to `a` saturates nowhere.
pub open spec fn adds_fit(a: Map<Seq<char>, u64>, b: Map<Seq<char>, u64>) -> bool {
    forall|k: Seq<char>| #[trigger] b.contains_key(k) ==> amt(a, k) + b[k] <= u64::MAX
}

pub proof fn lemma_add_amt(a: Map<Seq<char>, u64>, b: Map<Seq<char>, u64>)
    requires
        adds_fit(a, b),
    ensures
        forall|k: Seq<char>| #[trigger] amt(spec_add_vector(a, b, 1), k) == amt(a, k) + amt(b, k),
{
    assert forall|k: Seq<char>| #[trigger] amt(spec_add_vector(a, b, 1), k) == amt(a, k) + amt(b, k) by {
        if b.contains_key(k) {
            assert(sat_mul(b[k] as int, 1) == b[k]);
        }
    }
}

pub proof fn lemma_drain_amt(v: Map<Seq<char>, u64>, s: Map<Seq<char>, u64>, e: Map<Seq<char>, u64>)
    requires
        shortfall_fits(e, v, s),
    ensures
        forall|k: Seq<char>|
            #[trigger] amt(spec_drain(v, s), k) - amt(spec_name_shortfall(e, v, s), k) == amt(v, k) - amt(e, k)
                - amt(s, k),
{
    assert forall|k: Seq<char>|
        #[trigger] amt(spec_drain(v, s), k) - amt(spec_name_shortfall(e, v, s), k) == amt(v, k) - amt(e, k)
            - amt(s, k) by {
        if s.contains_key(k) {
            assert(amt(e, k) + deficit(v, s, k) <= u64::MAX);
        }
    }
}

/// Every part of the ledger but its material compartments is unchanged.
pub open spec fn frame_meta(a: MaterialLedger, b: MaterialLedger) -> bool {
    &&& a.schema_version == b.schema_version
    &&& a.content_hash == b.content_hash
    &&& a.retrogen@ == b.retrogen@
    &&& a.item_manifests@ == b.item_manifests@
    &&& a.block_manifests@ == b.block_manifests@
    &&& a.qualification == b.qualification
    &&& a.last_delta_seq == b.last_delta_seq
}

/// Deposits, reservations, placed blocks and operation counters are unchanged.
pub open spec fn frame_world(a: MaterialLedger, b: MaterialLedger) -> bool {
    &&& a.deposits@ == b.deposits@
    &&& a.chunk_reservations@ == b.chunk_reservations@
    &&& a.placed_positions@ == b.placed_positions@
    &&& a.next_operation_id == b.next_operation_id
    &&& a.last_applied_operation == b.last_applied_operation
}

/// A sink action: `v` leaves circulation (shortfalls named external) and
/// enters the sink selected by `to_loss` / `to_consumption` / secondary.
pub enum Sink {
    Loss,
    Consumption,
    Secondary,
}

pub open spec fn sink_view(l: MaterialLedger, sink: Sink) -> Map<Seq<char>, u64> {
    match sink {
        Sink::Loss => l.explicit_loss@,
        Sink::Consumption => l.explicit_consumption@,
        Sink::Secondary => l.secondary_physical@,
    }
}

pub open spec fn spec_moved_to_sink(a: MaterialLedger, b: MaterialLedger, v: MaterialVector, sink: Sink) -> bool {
    &&& frame_meta(a, b)
    &&& frame_world(a, b)
    &&& b.salvage@ == a.salvage@
    &&& b.external_sources@ == a.external_sources@
    &&& b.placed@ == a.placed@
    &&& b.circulating@ == spec_drain(a.circulating@, v@)
    &&& b.external_additions@ == spec_name_shortfall(a.external_additions@, a.circulating@, v@)
    &&& sink_view(b, sink) == spec_add_vector(sink_view(a, sink), v@, 1)
    &&& (sink != Sink::Loss ==> b.explicit_loss@ == a.explicit_loss@)
    &&& (sink != Sink::Consumption ==> b.explicit_consumption@ == a.explicit_consumption@)
    &&& (sink != Sink::Secondary ==> b.secondary_physical@ == a.secondary_physical@)
}

pub open spec fn spec_recovered_secondary(a: MaterialLedger, b: MaterialLedger, v: MaterialVector) -> bool {
    &&& frame_meta(a, b)
    &&& frame_world(a, b)
    &&& b.salvage@ == a.salvage@
    &&& b.external_sources@ == a.external_sources@
    &&& b.placed@ == a.placed@
    &&& b.explicit_loss@ == a.explicit_loss@
    &&& b.explicit_consumption@ == a.explicit_consumption@
    &&& b.secondary_physical@ == spec_drain(a.secondary_physical@, v@)
    &&& b.external_additions@ == spec_name_shortfall(a.external_additions@, a.secondary_physical@, v@)
    &&& b.circulating@ == spec_add_vector(a.circulating@, v@, 1)
}

impl MaterialLedger {
    /// Move `v` out of circulation into `sink`.
    fn move_to_sink(&mut self, v: &MaterialVector, sink: Sink)
        requires
            shortfall_fits(old(self).external_additions@, old(self).circulating@, v@),
        ensures
            spec_moved_to_sink(*old(self), *final(self), *v, sink),
            adds_fit(sink_view(*old(self), sink), v@) ==> forall|m: Seq<char>|
                #[trigger] spec_unexplained(*final(self), m) == spec_unexplained(*old(self), m),
    {
        let ghost a = *self;
        subtract_or_external(&mut self.circulating, v, &mut self.external_additions);
        match sink {
            Sink::Loss => add_vector(&mut self.explicit_loss, v, 1),
            Sink::Consumption => add_vector(&mut self.explicit_consumption, v, 1),
            Sink::Secondary => add_vector(&mut self.secondary_physical, v, 1),
        }
        proof {
            if adds_fit(sink_view(a, sink), v@) {
                lemma_add_amt(sink_view(a, sink), v@);
                lemma_drain_amt(a.circulating@, v@, a.external_additions@);
            }
        }
    }

    /// Move `v` out of secondary stock back into circulation.
    fn recover_secondary(&mut self, v: &MaterialVector)
        requires
            shortfall_fits(old(self).external_additions@, old(self).secondary_physical@, v@),
        ensures
            spec_recovered_secondary(*old(self), *final(self), *v),
            adds_fit(old(self).circulating@, v@) ==> forall|m: Seq<char>|
                #[trigger] spec_unexplained(*final(self), m) == spec_unexplained(*old(self), m),
    {
        let ghost a = *self;
        subtract_or_external(&mut self.secondary_physical, v, &mut self.external_additions);
        add_vector(&mut self.circulating, v, 1);
        proof {
            if adds_fit(a.circulating@, v@) {
                lemma_add_amt(a.circulating@, v@);
                lemma_drain_amt(a.secondary_physical@, v@, a.external_additions@);
            }
        }
    }
}


pub open spec fn bury_source(l: MaterialLedger, from_secondary: bool) -> Map<Seq<char>, u64> {
    if from_secondary {
        l.secondary_physical@
    } else {
        l.circulating@
    }
}

pub open spec fn spec_buried(
    a: MaterialLedger,
    b: MaterialLedger,
    region: SalvageRegion,
    v: MaterialVector,
    from_secondary: bool,
    reason: Seq<char>,
) -> bool {
    &&& frame_meta(a, b)
    &&& frame_world(a, b)
    &&& b.external_sources@ == a.external_sources@
    &&& b.placed@ == a.placed@
    &&& b.explicit_loss@ == a.explicit_loss@
    &&& b.explicit_consumption@ == a.explicit_consumption@
    &&& bury_source(b, from_secondary) == spec_drain(bury_source(a, from_secondary), v@)
    &&& bury_source(b, !from_secondary) == bury_source(a, !from_secondary)
    &&& b.external_additions@ == spec_name_shortfall(
        a.external_additions@,
        bury_source(a, from_secondary),
        v@,
    )
    &&& regions_distinct(b.salvage@)
    &&& pool_view(b.salvage@, region) == spec_add_vector(pool_view(a.salvage@, region), v@, 1)
    &&& forall|r: SalvageRegion| r != region ==> #[trigger] pool_view(b.salvage@, r) == pool_view(a.salvage@, r)
    &&& exists|i: int|
        0 <= i < b.salvage@.len() && b.salvage@[i].0 == region && b.salvage@[i].1.last_reason@ == reason
    &&& pool_events(b.salvage@, region) == if pool_events(a.salvage@, region) == u64::MAX {
        u64::MAX
    } else {
        (pool_events(a.salvage@, region) + 1) as u64
    }
    &&& forall|m: Seq<char>| #[trigger] seq_sum(b.salvage@, f_pool(m)) == seq_sum(a.salvage@, f_pool(m)) - amt(
        pool_view(a.salvage@, region),
        m,
    ) + amt(pool_view(b.salvage@, region), m)
}

pub open spec fn recover_refused(l: MaterialLedger, region: SalvageRegion, material: Seq<char>, processed: u64) -> bool {
    !has_region(l.salvage@, region) || amt(pool_view(l.salvage@, region), material) < processed
}

pub open spec fn spec_recovered(
    a: MaterialLedger,
    b: MaterialLedger,
    region: SalvageRegion,
    material: Seq<char>,
    processed: u64,
    recovered: u64,
) -> bool {
    &&& frame_meta(a, b)
    &&& frame_world(a, b)
    &&& b.external_sources@ == a.external_sources@
    &&& b.placed@ == a.placed@
    &&& b.external_additions@ == a.external_additions@
    &&& b.secondary_physical@ == a.secondary_physical@
    &&& b.explicit_consumption@ == a.explicit_consumption@
    &&& regions_distinct(b.salvage@)
    &&& forall|r: SalvageRegion| #[trigger] pool_view(b.salvage@, r) == if r == region {
        spec_subtract_one(pool_view(a.salvage@, region), material, processed)
    } else {
        pool_view(a.salvage@, r)
    }
    &&& forall|i: int| 0 <= i < b.salvage@.len() ==> #[trigger] b.salvage@[i].1.materials@ != Map::<Seq<char>, u64>::empty()
    &&& b.circulating@ == a.circulating@.insert(material, (amt(a.circulating@, material) + recovered) as u64)
    &&& b.explicit_loss@ == a.explicit_loss@.insert(
        material,
        (amt(a.explicit_loss@, material) + (processed - recovered)) as u64,
    )
}

/// A successful recovery cannot overflow or underflow its counters.
pub open spec fn recover_fits(l: MaterialLedger, region: SalvageRegion, material: Seq<char>, processed: u64, recovered: u64) -> bool {
    !recover_refused(l, region, material, processed) ==> (recovered <= processed && amt(l.circulating@, material)
        + recovered <= u64::MAX && amt(l.explicit_loss@, material) + (processed - recovered) <= u64::MAX)
}

pub open spec fn spec_externally_added(
    a: MaterialLedger,
    b: MaterialLedger,
    v: MaterialVector,
    secondary: bool,
    source: Seq<char>,
) -> bool {
    &&& frame_meta(a, b)
    &&& frame_world(a, b)
    &&& b.salvage@ == a.salvage@
    &&& b.placed@ == a.placed@
    &&& b.explicit_loss@ == a.explicit_loss@
    &&& b.explicit_consumption@ == a.explicit_consumption@
    &&& b.external_additions@ == spec_add_vector(a.external_additions@, v@, 1)
    &&& sources_distinct(b.external_sources@)
    &&& source_view(b.external_sources@, source) == spec_add_vector(source_view(a.external_sources@, source), v@, 1)
    &&& forall|n: Seq<char>| n != source ==> #[trigger] source_view(b.external_sources@, n) == source_view(a.external_sources@, n)
    &&& bury_source(b, secondary) == spec_add_vector(bury_source(a, secondary), v@, 1)
    &&& bury_source(b, !secondary) == bury_source(a, !secondary)
}

impl MaterialLedger {
    /// Bury `v` in `region`'s salvage pool, taking it from circulation or,
    /// for scale and slag, from secondary stock.
    fn bury(&mut self, region: SalvageRegion, v: &MaterialVector, from_secondary: bool, reason: &str)
        requires
            regions_distinct(old(self).salvage@),
            shortfall_fits(old(self).external_additions@, bury_source(*old(self), from_secondary), v@),
        ensures
            spec_buried(*old(self), *final(self), region, *v, from_secondary, reason@),
            adds_fit(pool_view(old(self).salvage@, region), v@) ==> forall|m: Seq<char>|
                #[trigger] spec_unexplained(*final(self), m) == spec_unexplained(*old(self), m),
    {
        let ghost a = *self;
        if from_secondary {
            subtract_or_external(&mut self.secondary_physical, v, &mut self.external_additions);
        } else {
            subtract_or_external(&mut self.circulating, v, &mut self.external_additions);
        }
        add_to_pool(&mut self.salvage, region, v, reason);
        proof {
            if adds_fit(pool_view(a.salvage@, region), v@) {
                lemma_add_amt(pool_view(a.salvage@, region), v@);
                lemma_drain_amt(bury_source(a, from_secondary), v@, a.external_additions@);
                assert forall|m: Seq<char>| #[trigger] spec_unexplained(*self, m) == spec_unexplained(a, m) by {
                    assert(seq_sum(self.salvage@, f_pool(m)) == seq_sum(a.salvage@, f_pool(m)) - amt(
                        pool_view(a.salvage@, region), m) + amt(pool_view(self.salvage@, region), m));
                }
            }
        }
    }

    /// Process `processed` units of `material` from `region`'s pool,
    /// returning `recovered` of them to circulation; the rest is explicit
    /// process loss. Pools left empty are dropped.
    fn recover(&mut self, region: SalvageRegion, material: &str, processed: u64, recovered: u64) -> (r: Result<(), LedgerError>)
        requires
            regions_distinct(old(self).salvage@),
            recover_fits(*old(self), region, material@, processed, recovered),
        ensures
            r is Err <==> recover_refused(*old(self), region, material@, processed),
            r is Err ==> *final(self) == *old(self),
            r is Ok ==> spec_recovered(*old(self), *final(self), region, material@, processed, recovered),
            r is Ok ==> forall|m: Seq<char>|
                #[trigger] spec_unexplained(*final(self), m) == spec_unexplained(*old(self), m),
    {
        let ghost a = *self;
        let i = match find_pool(&self.salvage, region) {
            Some(i) => i,
            None => {
                return Err(LedgerError::PoolMissing);
            },
        };
        proof {
            lemma_pool_view_at(a.salvage@, i as int);
        }
        let available = self.salvage[i].1.materials.units(material);
        if available < processed {
            return Err(
                LedgerError::Underflow { material: material.to_owned(), available, needed: processed },
            );
        }
        let (key, mut pool) = self.salvage.remove(i);
        let _ = subtract_one(&mut pool.materials, material, processed);
        let ghost entry = (key, pool);
        self.salvage.insert(i, (key, pool));
        let ghost mid = self.salvage@;
        proof {
            assert(mid =~= a.salvage@.update(i as int, entry));
            assert(regions_distinct(mid)) by {
                assert forall|x: int, y: int| 0 <= x < mid.len() && 0 <= y < mid.len() && x != y implies mid[x].0 != mid[y].0 by {
                    assert(mid[x].0 == a.salvage@[x].0);
                    assert(mid[y].0 == a.salvage@[y].0);
                }
            }
            lemma_pool_view_at(mid, i as int);
            assert forall|r: SalvageRegion| r != region implies #[trigger] pool_view(mid, r) == pool_view(a.salvage@, r) by {
                if has_region(a.salvage@, r) {
                    let j = choose|j: int| 0 <= j < a.salvage@.len() && a.salvage@[j].0 == r;
                    lemma_pool_view_at(a.salvage@, j);
                    assert(mid[j] == a.salvage@[j]);
                    lemma_pool_view_at(mid, j);
                }
                if has_region(mid, r) {
                    let j = choose|j: int| 0 <= j < mid.len() && mid[j].0 == r;
                    assert(mid[j] == a.salvage@[j]);
                }
            }
            assert forall|m: Seq<char>| #[trigger] seq_sum(mid, f_pool(m)) == seq_sum(a.salvage@, f_pool(m)) - (if m == material@ { processed as int } else { 0 }) by {
                lemma_sum_update(a.salvage@, i as int, entry, f_pool(m));
            }
        }
        let c = self.circulating.units(material);
        self.circulating.insert(material, c + recovered);
        let l = self.explicit_loss.units(material);
        self.explicit_loss.insert(material, l + (processed - recovered));
        retain_nonempty_pools(&mut self.salvage);
        proof {
            lemma_drop_empty(mid);
        }
        Ok(())
    }

    /// Register `v` as introduced by the named external `source`.
    fn add_external(&mut self, v: &MaterialVector, secondary: bool, source: &str)
        requires
            sources_distinct(old(self).external_sources@),
        ensures
            spec_externally_added(*old(self), *final(self), *v, secondary, source@),
            adds_fit(old(self).external_additions@, v@) && adds_fit(bury_source(*old(self), secondary), v@)
                ==> forall|m: Seq<char>|
                #[trigger] spec_unexplained(*final(self), m) == spec_unexplained(*old(self), m),
    {
        let ghost a = *self;
        add_vector(&mut self.external_additions, v, 1);
        add_to_source(&mut self.external_sources, source, v);
        if secondary {
            add_vector(&mut self.secondary_physical, v, 1);
        } else {
            add_vector(&mut self.circulating, v, 1);
        }
        proof {
            if adds_fit(a.external_additions@, v@) && adds_fit(bury_source(a, secondary), v@) {
                lemma_add_amt(a.external_additions@, v@);
                lemma_add_amt(bury_source(a, secondary), v@);
            }
        }
    }
}


// ---------------------------------------------------------------------------
// Reservations and mining.

pub open spec fn has_chunk(l: MaterialLedger, c: ChunkPos) -> bool {
    exists|i: int| 0 <= i < l.chunk_reservations@.len() && l.chunk_reservations@[i].chunk == c
}

pub open spec fn chunk_index(l: MaterialLedger, c: ChunkPos) -> int {
    choose|i: int| 0 <= i < l.chunk_reservations@.len() && l.chunk_reservations@[i].chunk == c
}

pub open spec fn has_block(r: ChunkReservation, name: Seq<char>) -> bool {
    exists|j: int| 0 <= j < r.blocks@.len() && r.blocks@[j].block@ == name
}

pub open spec fn block_index(r: ChunkReservation, name: Seq<char>) -> int {
    choose|j: int| 0 <= j < r.blocks@.len() && r.blocks@[j].block@ == name
}

/// The first slice that still funds a block.
pub open spec fn first_open(s: Seq<ReservationSlice>) -> Option<int> {
    if exists|i: int| 0 <= i < s.len() && s[i].count != 0 {
        Some(choose|i: int| 0 <= i < s.len() && s[i].count != 0 && forall|j: int| 0 <= j < i ==> s[j].count == 0)
    } else {
        None
    }
}

pub open spec fn has_deposit(l: MaterialLedger, id: u32) -> bool {
    exists|i: int| 0 <= i < l.deposits@.len() && l.deposits@[i].id == id
}

pub open spec fn deposit_index(l: MaterialLedger, id: u32) -> int {
    choose|i: int| 0 <= i < l.deposits@.len() && l.deposits@[i].id == id
}

/// The slices behind `name` in the reservation of `chunk`.
pub open spec fn reserved_slices(l: MaterialLedger, chunk: ChunkPos, name: Seq<char>) -> Seq<ReservationSlice> {
    let r = l.chunk_reservations@[chunk_index(l, chunk)];
    r.blocks@[block_index(r, name)].slices@
}

/// Why mining one reserved block of `name` in `chunk` must be refused.
pub open spec fn extract_refused(l: MaterialLedger, chunk: ChunkPos, name: Seq<char>, mats: Map<Seq<char>, u64>) -> bool {
    ||| !has_chunk(l, chunk)
    ||| !has_block(l.chunk_reservations@[chunk_index(l, chunk)], name)
    ||| first_open(reserved_slices(l, chunk, name)) is None
    ||| !has_deposit(l, reserved_slices(l, chunk, name)[first_open(reserved_slices(l, chunk, name))->0].deposit_id)
    ||| !covers(
        l.deposits@[deposit_index(l, reserved_slices(l, chunk, name)[first_open(reserved_slices(l, chunk, name))->0].deposit_id)].materialized_underground@,
        mats,
    )
}

/// The deposit account `b` is account `a` after one reserved block of
/// material `mats` was mined from it.
pub open spec fn spec_account_mined(a: DepositAccount, b: DepositAccount, mats: Map<Seq<char>, u64>) -> bool {
    &&& b.id == a.id
    &&& b.resource_family == a.resource_family
    &&& b.resource_key == a.resource_key
    &&& b.radius_blocks == a.radius_blocks
    &&& b.grade_ppm == a.grade_ppm
    &&& b.original_recoverable == a.original_recoverable
    &&& b.remaining_unmaterialized == a.remaining_unmaterialized
    &&& b.tailings_secondary == a.tailings_secondary
    &&& b.materialized_underground@ == spec_subtract(a.materialized_underground@, mats)
    &&& b.extracted@ == spec_add_vector(a.extracted@, mats, 1)
    &&& b.discovered
}

/// `b` is `a` after mining one reserved block of `name` in `chunk`: the first
/// open slice loses one block and its deposit moves `mats` from underground
/// to extracted.
pub open spec fn spec_extracted(a: MaterialLedger, b: MaterialLedger, chunk: ChunkPos, name: Seq<char>, mats: Map<Seq<char>, u64>) -> bool {
    let ci = chunk_index(a, chunk);
    let r = a.chunk_reservations@[ci];
    let bi = block_index(r, name);
    let si = first_open(r.blocks@[bi].slices@)->0;
    let slice = r.blocks@[bi].slices@[si];
    let di = deposit_index(a, slice.deposit_id);
    let nr = b.chunk_reservations@[ci];
    &&& b.chunk_reservations@.len() == a.chunk_reservations@.len()
    &&& forall|c: int| 0 <= c < a.chunk_reservations@.len() && c != ci ==> #[trigger] b.chunk_reservations@[c] == a.chunk_reservations@[c]
    &&& nr.chunk == chunk
    &&& nr.blocks@.len() == r.blocks@.len()
    &&& forall|j: int| 0 <= j < r.blocks@.len() && j != bi ==> #[trigger] nr.blocks@[j] == r.blocks@[j]
    &&& nr.blocks@[bi].block == r.blocks@[bi].block
    &&& nr.blocks@[bi].slices@ == r.blocks@[bi].slices@.update(si, ReservationSlice { deposit_id: slice.deposit_id, count: (slice.count - 1) as u32 })
    &&& b.deposits@.len() == a.deposits@.len()
    &&& forall|d: int| 0 <= d < a.deposits@.len() && d != di ==> #[trigger] b.deposits@[d] == a.deposits@[d]
    &&& spec_account_mined(a.deposits@[di], b.deposits@[di], mats)
}

pub(crate) fn find_chunk(list: &Vec<ChunkReservation>, c: ChunkPos) -> (r: Option<usize>)
    ensures
        match r {
            Some(i) => i < list@.len() && list@[i as int].chunk == c,
            None => forall|i: int| 0 <= i < list@.len() ==> list@[i].chunk != c,
        },
{
    let mut i: usize = 0;
    while i < list.len()
        invariant
            i <= list@.len(),
            forall|j: int| 0 <= j < i ==> list@[j].chunk != c,
        decreases list@.len() - i,
    {
        if list[i].chunk == c {
            return Some(i);
        }
        i = i + 1;
    }
    None
}

pub(crate) fn find_block(list: &Vec<BlockReservation>, name: &str) -> (r: Option<usize>)
    ensures
        match r {
            Some(i) => i < list@.len() && list@[i as int].block@ == name@,
            None => forall|i: int| 0 <= i < list@.len() ==> list@[i].block@ != name@,
        },
{
    let mut i: usize = 0;
    while i < list.len()
        invariant
            i <= list@.len(),
            forall|j: int| 0 <= j < i ==> list@[j].block@ != name@,
        decreases list@.len() - i,
    {
        if crate::text::str_eq(list[i].block.as_str(), name) {
            return Some(i);
        }
        i = i + 1;
    }
    None
}

fn find_open_slice(list: &Vec<ReservationSlice>) -> (r: Option<usize>)
    ensures
        match r {
            Some(i) => i < list@.len() && first_open(list@) == Some(i as int) && list@[i as int].count != 0,
            None => first_open(list@) is None,
        },
{
    let mut i: usize = 0;
    while i < list.len()
        invariant
            i <= list@.len(),
            forall|j: int| 0 <= j < i ==> list@[j].count == 0,
        decreases list@.len() - i,
    {
        if list[i].count != 0 {
            proof {
                let c = choose|c: int| 0 <= c < list@.len() && list@[c].count != 0 && forall|j: int| 0 <= j < c ==> list@[j].count == 0;
                assert(c == i) by {
                    if c < i {
                    } else if c > i {
                        assert(list@[i as int].count == 0);
                    }
                }
            }
            return Some(i);
        }
        i = i + 1;
    }
    None
}

fn find_deposit(list: &Vec<DepositAccount>, id: u32) -> (r: Option<usize>)
    ensures
        match r {
            Some(i) => i < list@.len() && list@[i as int].id == id,
            None => forall|i: int| 0 <= i < list@.len() ==> list@[i].id != id,
        },
{
    let mut i: usize = 0;
    while i < list.len()
        invariant
            i <= list@.len(),
            forall|j: int| 0 <= j < i ==> list@[j].id != id,
        decreases list@.len() - i,
    {
        if list[i].id == id {
            return Some(i);
        }
        i = i + 1;
    }
    None
}

/// The first entry of `s` that `v` cannot cover, if any.
pub fn first_shortfall(v: &MaterialVector, s: &MaterialVector) -> (r: Option<usize>)
    ensures
        r is None <==> covers(v@, s@),
        r matches Some(i) ==> i < s.spec_len() && s.units_at_spec(i as int) > amt(v@, s.name_at_spec(i as int)),
{
    let n = s.len();
    let mut i: usize = 0;
    while i < n
        invariant
            n == s.spec_len(),
            s.consistent(),
            i <= n,
            forall|j: int| 0 <= j < i ==> s.units_at_spec(j) <= amt(v@, s.name_at_spec(j)),
        decreases n - i,
    {
        if v.units(s.name_at(i)) < s.units_at(i) {
            proof {
                s.lemma_consistent();
                assert(s@.contains_key(s.name_at_spec(i as int)));
            }
            return Some(i);
        }
        i = i + 1;
    }
    proof {
        s.lemma_consistent();
        assert forall|k: Seq<char>| #[trigger] s@.contains_key(k) implies s@[k] <= amt(v@, k) by {
            let j = choose|j: int| 0 <= j < s.spec_len() && s.name_at_spec(j) == k;
        }
    }
    None
}

impl MaterialLedger {
    /// Mine one reserved finite block of `block_name` in `chunk`: its first
    /// open slice loses one block, and that slice's deposit moves `materials`
    /// from underground to extracted. Nothing changes when refused.
    #[verifier::rlimit(50)]
    #[verifier::spinoff_prover]
    fn extract_reserved(&mut self, chunk: ChunkPos, block_name: &str, materials: &MaterialVector) -> (r: Result<(), LedgerError>)
        requires
            ledger_wf(*old(self)),
        ensures
            r is Err <==> extract_refused(*old(self), chunk, block_name@, materials@),
            r is Err ==> *final(self) == *old(self),
            r is Ok ==> spec_extracted(*old(self), *final(self), chunk, block_name@, materials@),
            r is Ok ==> ledger_wf(*final(self)),
            r is Ok ==> frame_meta(*old(self), *final(self)),
            r is Ok ==> final(self).placed_positions@ == old(self).placed_positions@,
            r is Ok ==> final(self).next_operation_id == old(self).next_operation_id,
            r is Ok ==> final(self).last_applied_operation == old(self).last_applied_operation,
            r is Ok ==> final(self).salvage@ == old(self).salvage@ && final(self).external_sources@ == old(self).external_sources@,
            r is Ok ==> final(self).circulating == old(self).circulating && final(self).placed == old(self).placed
                && final(self).secondary_physical == old(self).secondary_physical && final(self).explicit_loss == old(self).explicit_loss
                && final(self).explicit_consumption == old(self).explicit_consumption && final(self).external_additions == old(self).external_additions,
            r is Ok ==> forall|m: Seq<char>| #[trigger] seq_sum(final(self).deposits@, f_underground(m)) == seq_sum(old(self).deposits@, f_underground(m)) - amt(materials@, m),
            r is Ok ==> forall|m: Seq<char>| #[trigger] seq_sum(final(self).deposits@, f_original(m)) == seq_sum(old(self).deposits@, f_original(m)),
            r is Ok ==> forall|m: Seq<char>| #[trigger] seq_sum(final(self).deposits@, f_unmaterialized(m)) == seq_sum(old(self).deposits@, f_unmaterialized(m)),
            r is Ok ==> forall|m: Seq<char>| #[trigger] seq_sum(final(self).deposits@, f_tailings(m)) == seq_sum(old(self).deposits@, f_tailings(m)),
    {
        let ghost a = *self;
        let ci = match find_chunk(&self.chunk_reservations, chunk) {
            Some(i) => i,
            None => {
                return Err(LedgerError::MissingReservation);
            },
        };
        proof {
            let c = chunk_index(a, chunk);
            assert(c == ci as int);
            assert(blocks_wf(a.chunk_reservations@[ci as int]));
        }
        let bi = match find_block(&self.chunk_reservations[ci].blocks, block_name) {
            Some(j) => j,
            None => {
                return Err(LedgerError::AbsentFromReservation);
            },
        };
        proof {
            let r = a.chunk_reservations@[ci as int];
            let b = block_index(r, block_name@);
            assert(b == bi as int);
        }
        let si = match find_open_slice(&self.chunk_reservations[ci].blocks[bi].slices) {
            Some(k) => k,
            None => {
                return Err(LedgerError::ReservationExhausted);
            },
        };
        let slice = self.chunk_reservations[ci].blocks[bi].slices[si];
        proof {
            let sl = a.chunk_reservations@[ci as int].blocks@[bi as int].slices@;
            assert(reserved_slices(a, chunk, block_name@) == sl);
            assert(first_open(sl) == Some(si as int));
            assert(slice == sl[si as int]);
        }
        let di = match find_deposit(&self.deposits, slice.deposit_id) {
            Some(d) => d,
            None => {
                return Err(LedgerError::MissingDeposit);
            },
        };
        proof {
            let d = deposit_index(a, slice.deposit_id);
            assert(d == di as int);
        }
        if let Some(k) = first_shortfall(&self.deposits[di].materialized_underground, materials) {
            return Err(LedgerError::DepositLacks { deposit: slice.deposit_id, material: materials.name_at(k).to_owned() });
        }
        // Debit the slice.
        let mut res = self.chunk_reservations.remove(ci);
        let mut block = res.blocks.remove(bi);
        block.slices.set(si, ReservationSlice { deposit_id: slice.deposit_id, count: slice.count - 1 });
        res.blocks.insert(bi, block);
        self.chunk_reservations.insert(ci, res);
        // Move the material inside the deposit.
        let mut account = self.deposits.remove(di);
        let _ = subtract_vector(&mut account.materialized_underground, materials);
        add_vector(&mut account.extracted, materials, 1);
        account.discovered = true;
        let ghost acct = account;
        self.deposits.insert(di, account);
        proof {
            assert(self.deposits@ =~= a.deposits@.update(di as int, acct));
            let r0 = a.chunk_reservations@[ci as int];
            assert(self.chunk_reservations@[ci as int].blocks@ =~= r0.blocks@.update(bi as int, self.chunk_reservations@[ci as int].blocks@[bi as int]));
            assert forall|c: int| 0 <= c < a.chunk_reservations@.len() && c != ci implies #[trigger] self.chunk_reservations@[c] == a.chunk_reservations@[c] by {}
            assert forall|x: int, y: int| 0 <= x < self.chunk_reservations@.len() && 0 <= y < self.chunk_reservations@.len() && x != y implies self.chunk_reservations@[x].chunk != self.chunk_reservations@[y].chunk by {
                assert(self.chunk_reservations@[x].chunk == a.chunk_reservations@[x].chunk);
                assert(self.chunk_reservations@[y].chunk == a.chunk_reservations@[y].chunk);
            }
            assert forall|c: int| 0 <= c < self.chunk_reservations@.len() implies #[trigger] blocks_wf(self.chunk_reservations@[c]) by {
                if c != ci {
                    assert(self.chunk_reservations@[c] == a.chunk_reservations@[c]);
                } else {
                    let nr = self.chunk_reservations@[c];
                    assert forall|x: int, y: int| 0 <= x < nr.blocks@.len() && 0 <= y < nr.blocks@.len() && x != y implies nr.blocks@[x].block@ != nr.blocks@[y].block@ by {
                        assert(nr.blocks@[x].block == r0.blocks@[x].block);
                        assert(nr.blocks@[y].block == r0.blocks@[y].block);
                    }
                }
            }
            assert forall|x: int, y: int| 0 <= x < self.deposits@.len() && 0 <= y < self.deposits@.len() && x != y implies self.deposits@[x].id != self.deposits@[y].id by {
                assert(self.deposits@[x].id == a.deposits@[x].id);
                assert(self.deposits@[y].id == a.deposits@[y].id);
            }
            assert forall|m: Seq<char>| #[trigger] seq_sum(self.deposits@, f_underground(m)) == seq_sum(a.deposits@, f_underground(m)) - amt(materials@, m) by {
                lemma_sum_update(a.deposits@, di as int, acct, f_underground(m));
            }
            assert forall|m: Seq<char>| #[trigger] seq_sum(self.deposits@, f_original(m)) == seq_sum(a.deposits@, f_original(m)) by {
                lemma_sum_update(a.deposits@, di as int, acct, f_original(m));
            }
            assert forall|m: Seq<char>| #[trigger] seq_sum(self.deposits@, f_unmaterialized(m)) == seq_sum(a.deposits@, f_unmaterialized(m)) by {
                lemma_sum_update(a.deposits@, di as int, acct, f_unmaterialized(m));
            }
            assert forall|m: Seq<char>| #[trigger] seq_sum(self.deposits@, f_tailings(m)) == seq_sum(a.deposits@, f_tailings(m)) by {
                lemma_sum_update(a.deposits@, di as int, acct, f_tailings(m));
            }
        }
        Ok(())
    }
}


// ---------------------------------------------------------------------------
// Placed blocks and voxel operations.

pub open spec fn has_pos(s: Seq<PlacedBlock>, p: BlockPos) -> bool {
    exists|i: int| 0 <= i < s.len() && s[i].pos == p
}

pub open spec fn positions_distinct(s: Seq<PlacedBlock>) -> bool {
    forall|i: int, j: int| 0 <= i < s.len() && 0 <= j < s.len() && i != j ==> s[i].pos != s[j].pos
}

/// The material recorded for the block placed at `p`; empty where none is.
pub open spec fn placed_at(s: Seq<PlacedBlock>, p: BlockPos) -> Map<Seq<char>, u64> {
    if has_pos(s, p) {
        s[choose|i: int| 0 <= i < s.len() && s[i].pos == p].materials@
    } else {
        Map::empty()
    }
}

proof fn lemma_placed_at(s: Seq<PlacedBlock>, i: int)
    requires
        positions_distinct(s),
        0 <= i < s.len(),
    ensures
        has_pos(s, s[i].pos),
        placed_at(s, s[i].pos) == s[i].materials@,
{
    let c = choose|c: int| 0 <= c < s.len() && s[c].pos == s[i].pos;
    assert(c == i);
}

/// The placed-block list differs from `a` only at `p`.
pub open spec fn placed_same_except(a: Seq<PlacedBlock>, b: Seq<PlacedBlock>, p: BlockPos) -> bool {
    forall|q: BlockPos| q != p ==> (#[trigger] has_pos(b, q) == has_pos(a, q) && placed_at(b, q) == placed_at(a, q))
}

pub(crate) fn find_placed(list: &Vec<PlacedBlock>, pos: BlockPos) -> (r: Option<usize>)
    ensures
        match r {
            Some(i) => i < list@.len() && list@[i as int].pos == pos,
            None => !has_pos(list@, pos),
        },
{
    let mut i: usize = 0;
    while i < list.len()
        invariant
            i <= list@.len(),
            forall|j: int| 0 <= j < i ==> list@[j].pos != pos,
        decreases list@.len() - i,
    {
        if list[i].pos == pos {
            return Some(i);
        }
        i = i + 1;
    }
    None
}

/// Remove and return the material recorded at `pos`, if any.
fn take_placed(list: &mut Vec<PlacedBlock>, pos: BlockPos) -> (r: Option<MaterialVector>)
    requires
        positions_distinct(old(list)@),
    ensures
        positions_distinct(final(list)@),
        r is Some <==> has_pos(old(list)@, pos),
        r matches Some(v) ==> v@ == placed_at(old(list)@, pos),
        r is None ==> final(list)@ == old(list)@,
        !has_pos(final(list)@, pos),
        placed_same_except(old(list)@, final(list)@, pos),
{
    let ghost a = list@;
    match find_placed(list, pos) {
        Some(i) => {
            proof {
                lemma_placed_at(a, i as int);
            }
            let entry = list.remove(i);
            proof {
                let b = list@;
                assert(b =~= a.remove(i as int));
                assert forall|x: int| 0 <= x < b.len() implies #[trigger] b[x] == a[if x < i { x } else { x + 1 }] by {}
                assert forall|x: int, y: int| 0 <= x < b.len() && 0 <= y < b.len() && x != y implies b[x].pos != b[y].pos by {
                    assert(b[x] == a[if x < i { x } else { x + 1 }]);
                    assert(b[y] == a[if y < i { y } else { y + 1 }]);
                }
                assert(!has_pos(b, pos)) by {
                    if has_pos(b, pos) {
                        let x = choose|x: int| 0 <= x < b.len() && b[x].pos == pos;
                        assert(b[x] == a[if x < i { x } else { x + 1 }]);
                    }
                }
                assert forall|q: BlockPos| q != pos implies (#[trigger] has_pos(b, q) == has_pos(a, q) && placed_at(b, q) == placed_at(a, q)) by {
                    if has_pos(a, q) {
                        let y = choose|y: int| 0 <= y < a.len() && a[y].pos == q;
                        assert(y != i);
                        let x = if y < i { y } else { y - 1 };
                        assert(b[x] == a[y]);
                        lemma_placed_at(a, y);
                        lemma_placed_at(b, x);
                    }
                    if has_pos(b, q) {
                        let x = choose|x: int| 0 <= x < b.len() && b[x].pos == q;
                        assert(b[x] == a[if x < i { x } else { x + 1 }]);
                    }
                }
            }
            Some(entry.materials)
        },
        None => None,
    }
}

/// Record that the block at `pos` holds `materials`, replacing any record.
pub(crate) fn put_placed(list: &mut Vec<PlacedBlock>, pos: BlockPos, materials: MaterialVector)
    requires
        positions_distinct(old(list)@),
    ensures
        positions_distinct(final(list)@),
        has_pos(final(list)@, pos),
        placed_at(final(list)@, pos) == materials@,
        placed_same_except(old(list)@, final(list)@, pos),
{
    let ghost a = list@;
    let ghost v = materials@;
    match find_placed(list, pos) {
        Some(i) => {
            let entry = PlacedBlock { pos, materials };
            let ghost e = entry;
            list.set(i, entry);
            proof {
                let b = list@;
                assert(b == a.update(i as int, e));
                assert forall|x: int, y: int| 0 <= x < b.len() && 0 <= y < b.len() && x != y implies b[x].pos != b[y].pos by {
                    assert(b[x].pos == a[x].pos);
                    assert(b[y].pos == a[y].pos);
                }
                lemma_placed_at(b, i as int);
                assert forall|q: BlockPos| q != pos implies (#[trigger] has_pos(b, q) == has_pos(a, q) && placed_at(b, q) == placed_at(a, q)) by {
                    if has_pos(a, q) {
                        let y = choose|y: int| 0 <= y < a.len() && a[y].pos == q;
                        assert(b[y] == a[y]);
                        lemma_placed_at(a, y);
                        lemma_placed_at(b, y);
                    }
                    if has_pos(b, q) {
                        let x = choose|x: int| 0 <= x < b.len() && b[x].pos == q;
                        assert(b[x] == a[x]);
                    }
                }
            }
        },
        None => {
            let entry = PlacedBlock { pos, materials };
            let ghost e = entry;
            list.push(entry);
            proof {
                let b = list@;
                assert(b == a.push(e));
                assert forall|x: int, y: int| 0 <= x < b.len() && 0 <= y < b.len() && x != y implies b[x].pos != b[y].pos by {
                    if x == a.len() {
                        assert(b[y] == a[y]);
                    } else if y == a.len() {
                        assert(b[x] == a[x]);
                    } else {
                        assert(b[x] == a[x]);
                        assert(b[y] == a[y]);
                    }
                }
                lemma_placed_at(b, a.len() as int);
                assert forall|q: BlockPos| q != pos implies (#[trigger] has_pos(b, q) == has_pos(a, q) && placed_at(b, q) == placed_at(a, q)) by {
                    if has_pos(a, q) {
                        let y = choose|y: int| 0 <= y < a.len() && a[y].pos == q;
                        assert(b[y] == a[y]);
                        lemma_placed_at(a, y);
                        lemma_placed_at(b, y);
                    }
                    if has_pos(b, q) {
                        let x = choose|x: int| 0 <= x < b.len() && b[x].pos == q;
                        assert(x < a.len());
                        assert(b[x] == a[x]);
                    }
                }
            }
        },
    }
}


/// The separator between an authored placement's prior block name and its
/// audit source; no block name contains it.
pub const AUTHORED_SOURCE_SEPARATOR: char = '\0';

pub open spec fn spec_before_name(before: Seq<char>) -> Seq<char> {
    match spec_first_index_of(before, AUTHORED_SOURCE_SEPARATOR) {
        Some(i) => before.subrange(0, i),
        None => before,
    }
}

pub open spec fn spec_authored_source(before: Seq<char>) -> Seq<char> {
    match spec_first_index_of(before, AUTHORED_SOURCE_SEPARATOR) {
        Some(i) => before.subrange(i + 1, before.len() as int),
        None => "authored world edit"@,
    }
}

impl MaterialOperation {
    /// The pre-edit block name, without an authored placement's source.
    pub fn before_block_name(&self) -> (r: &str)
        ensures
            r@ == spec_before_name(self.before@),
    {
        match find_char(self.before.as_str(), AUTHORED_SOURCE_SEPARATOR) {
            Some(i) => self.before.as_str().substring_char(0, i),
            None => self.before.as_str(),
        }
    }

    /// The audit source an authored placement names.
    pub fn authored_source(&self) -> (r: &str)
        ensures
            r@ == spec_authored_source(self.before@),
    {
        let n = self.before.as_str().unicode_len();
        match find_char(self.before.as_str(), AUTHORED_SOURCE_SEPARATOR) {
            Some(i) => self.before.as_str().substring_char(i + 1, n),
            None => {
                proof {
                    reveal_strlit("authored world edit");
                }
                "authored world edit"
            },
        }
    }
}


/// The operation counter after seeing operation `op`.
pub open spec fn bumped_next(l: MaterialLedger, op: MaterialOperation) -> u64 {
    let n = if op.id == u64::MAX { u64::MAX } else { (op.id + 1) as u64 };
    if l.next_operation_id >= n {
        l.next_operation_id
    } else {
        n
    }
}

pub open spec fn with_next(l: MaterialLedger, n: u64) -> MaterialLedger {
    MaterialLedger { next_operation_id: n, ..l }
}

/// The material a broken placed block returns: what was recorded for its
/// position, or what the operation names where nothing was recorded.
pub open spec fn break_stored(l: MaterialLedger, op: MaterialOperation) -> Map<Seq<char>, u64> {
    if has_pos(l.placed_positions@, op.pos) {
        placed_at(l.placed_positions@, op.pos)
    } else {
        op.materials@
    }
}

/// Applying `op` cannot overflow the external-addition account.
pub open spec fn op_fits(l: MaterialLedger, op: MaterialOperation) -> bool {
    op.id > l.last_applied_operation ==> match op.kind {
        MaterialOperationKind::BreakPlaced => shortfall_fits(l.external_additions@, l.placed@, break_stored(l, op)),
        MaterialOperationKind::Place => shortfall_fits(l.external_additions@, l.circulating@, op.materials@),
        _ => true,
    }
}

pub open spec fn op_refused(l: MaterialLedger, op: MaterialOperation) -> bool {
    op.id > l.last_applied_operation && op.kind == MaterialOperationKind::MineNatural && extract_refused(
        l,
        spec_chunk_of(op.pos),
        op.before@,
        op.materials@,
    )
}

/// No amount that `op` adds saturates.
pub open spec fn op_no_saturation(l: MaterialLedger, op: MaterialOperation) -> bool {
    op.id > l.last_applied_operation ==> match op.kind {
        MaterialOperationKind::MineNatural => adds_fit(l.circulating@, op.materials@),
        MaterialOperationKind::BreakPlaced => adds_fit(l.circulating@, break_stored(l, op)),
        MaterialOperationKind::Place => adds_fit(l.placed@, op.materials@),
        MaterialOperationKind::AuthoredPlace => adds_fit(l.external_additions@, op.materials@) && adds_fit(l.placed@, op.materials@),
    }
}

/// `b` is `a` after applying voxel operation `op` (already applied
/// operations only advance the counter).
pub open spec fn spec_op_applied(a: MaterialLedger, b: MaterialLedger, op: MaterialOperation) -> bool {
    if op.id <= a.last_applied_operation {
        b == with_next(a, bumped_next(a, op))
    } else {
        &&& b.next_operation_id == bumped_next(a, op)
        &&& b.last_applied_operation == op.id
        &&& frame_meta(a, b)
        &&& b.salvage@ == a.salvage@
        &&& b.secondary_physical@ == a.secondary_physical@
        &&& b.explicit_loss@ == a.explicit_loss@
        &&& b.explicit_consumption@ == a.explicit_consumption@
        &&& match op.kind {
            MaterialOperationKind::MineNatural => {
                &&& spec_extracted(a, b, spec_chunk_of(op.pos), op.before@, op.materials@)
                &&& b.placed_positions@ == a.placed_positions@
                &&& b.external_sources@ == a.external_sources@
                &&& b.circulating@ == spec_add_vector(a.circulating@, op.materials@, 1)
                &&& b.placed@ == a.placed@
                &&& b.external_additions@ == a.external_additions@
            },
            MaterialOperationKind::BreakPlaced => {
                &&& b.deposits@ == a.deposits@
                &&& b.chunk_reservations@ == a.chunk_reservations@
                &&& b.external_sources@ == a.external_sources@
                &&& !has_pos(b.placed_positions@, op.pos)
                &&& placed_same_except(a.placed_positions@, b.placed_positions@, op.pos)
                &&& b.placed@ == spec_drain(a.placed@, break_stored(a, op))
                &&& b.external_additions@ == spec_name_shortfall(a.external_additions@, a.placed@, break_stored(a, op))
                &&& b.circulating@ == spec_add_vector(a.circulating@, break_stored(a, op), 1)
            },
            MaterialOperationKind::Place => {
                &&& b.deposits@ == a.deposits@
                &&& b.chunk_reservations@ == a.chunk_reservations@
                &&& b.external_sources@ == a.external_sources@
                &&& has_pos(b.placed_positions@, op.pos)
                &&& placed_at(b.placed_positions@, op.pos) == op.materials@
                &&& placed_same_except(a.placed_positions@, b.placed_positions@, op.pos)
                &&& b.circulating@ == spec_drain(a.circulating@, op.materials@)
                &&& b.external_additions@ == spec_name_shortfall(a.external_additions@, a.circulating@, op.materials@)
                &&& b.placed@ == spec_add_vector(a.placed@, op.materials@, 1)
            },
            MaterialOperationKind::AuthoredPlace => {
                &&& b.deposits@ == a.deposits@
                &&& b.chunk_reservations@ == a.chunk_reservations@
                &&& has_pos(b.placed_positions@, op.pos)
                &&& placed_at(b.placed_positions@, op.pos) == op.materials@
                &&& placed_same_except(a.placed_positions@, b.placed_positions@, op.pos)
                &&& b.circulating@ == a.circulating@
                &&& b.external_additions@ == spec_add_vector(a.external_additions@, op.materials@, 1)
                &&& source_view(b.external_sources@, spec_authored_source(op.before@)) == spec_add_vector(
                    source_view(a.external_sources@, spec_authored_source(op.before@)),
                    op.materials@,
                    1,
                )
                &&& forall|n: Seq<char>| n != spec_authored_source(op.before@) ==> #[trigger] source_view(b.external_sources@, n) == source_view(a.external_sources@, n)
                &&& b.placed@ == spec_add_vector(a.placed@, op.materials@, 1)
            },
        }
    }
}

impl MaterialLedger {
    /// Apply a journaled voxel operation to the compartments: mining moves
    /// reserved material into circulation, breaking a placed block returns
    /// its recorded material, placing moves material out of circulation and
    /// an authored placement adds named external material.
    #[verifier::rlimit(50)]
    #[verifier::spinoff_prover]
    pub fn apply_operation_in_memory(&mut self, op: &MaterialOperation) -> (r: Result<(), LedgerError>)
        requires
            ledger_wf(*old(self)),
            op_fits(*old(self), *op),
        ensures
            ledger_wf(*final(self)),
            r is Err <==> op_refused(*old(self), *op),
            r is Err ==> *final(self) == with_next(*old(self), bumped_next(*old(self), *op)),
            r is Ok ==> spec_op_applied(*old(self), *final(self), *op),
            r is Ok && op_no_saturation(*old(self), *op) ==> forall|m: Seq<char>|
                #[trigger] spec_unexplained(*final(self), m) == spec_unexplained(*old(self), m),
    {
        let ghost a = *self;
        let next = op.id.saturating_add(1);
        if self.next_operation_id < next {
            self.next_operation_id = next;
        }
        if op.id <= self.last_applied_operation {
            return Ok(());
        }
        let ghost a1 = *self;
        match op.kind {
            MaterialOperationKind::MineNatural => {
                let chunk = op.pos.chunk();
                match self.extract_reserved(chunk, op.before.as_str(), &op.materials) {
                    Ok(()) => {},
                    Err(e) => {
                        return Err(e);
                    },
                }
                let ghost a2 = *self;
                add_vector(&mut self.circulating, &op.materials, 1);
                proof {
                    if op_no_saturation(a, *op) {
                        lemma_add_amt(a.circulating@, op.materials@);
                        assert forall|m: Seq<char>| #[trigger] spec_unexplained(*self, m) == spec_unexplained(a, m) by {
                            assert(seq_sum(a2.deposits@, f_underground(m)) == seq_sum(a1.deposits@, f_underground(m)) - amt(op.materials@, m));
                            assert(seq_sum(a2.deposits@, f_original(m)) == seq_sum(a1.deposits@, f_original(m)));
                            assert(seq_sum(a2.deposits@, f_unmaterialized(m)) == seq_sum(a1.deposits@, f_unmaterialized(m)));
                            assert(seq_sum(a2.deposits@, f_tailings(m)) == seq_sum(a1.deposits@, f_tailings(m)));
                        }
                    }
                }
            },
            MaterialOperationKind::BreakPlaced => {
                let stored = match take_placed(&mut self.placed_positions, op.pos) {
                    Some(v) => v,
                    None => op.materials.duplicate(),
                };
                subtract_or_external(&mut self.placed, &stored, &mut self.external_additions);
                add_vector(&mut self.circulating, &stored, 1);
                proof {
                    if op_no_saturation(a, *op) {
                        lemma_add_amt(a.circulating@, stored@);
                        lemma_drain_amt(a.placed@, stored@, a.external_additions@);
                    }
                }
            },
            MaterialOperationKind::Place => {
                subtract_or_external(&mut self.circulating, &op.materials, &mut self.external_additions);
                add_vector(&mut self.placed, &op.materials, 1);
                put_placed(&mut self.placed_positions, op.pos, op.materials.duplicate());
                proof {
                    if op_no_saturation(a, *op) {
                        lemma_add_amt(a.placed@, op.materials@);
                        lemma_drain_amt(a.circulating@, op.materials@, a.external_additions@);
                    }
                }
            },
            MaterialOperationKind::AuthoredPlace => {
                add_vector(&mut self.external_additions, &op.materials, 1);
                add_to_source(&mut self.external_sources, op.authored_source(), &op.materials);
                add_vector(&mut self.placed, &op.materials, 1);
                put_placed(&mut self.placed_positions, op.pos, op.materials.duplicate());
                proof {
                    if op_no_saturation(a, *op) {
                        lemma_add_amt(a.placed@, op.materials@);
                        lemma_add_amt(a.external_additions@, op.materials@);
                    }
                }
            },
        }
        self.last_applied_operation = op.id;
        Ok(())
    }
}


// ---------------------------------------------------------------------------
// Applying and validating deltas.

/// Applying `action` cannot overflow or underflow a counter.
pub open spec fn delta_fits(l: MaterialLedger, action: MaterialDeltaAction) -> bool {
    match action {
        MaterialDeltaAction::Operation(op) => op_fits(l, op),
        MaterialDeltaAction::RecipeLoss(v) => shortfall_fits(l.external_additions@, l.circulating@, v@),
        MaterialDeltaAction::Consumption(v) => shortfall_fits(l.external_additions@, l.circulating@, v@),
        MaterialDeltaAction::AdminDeletion(v) => shortfall_fits(l.external_additions@, l.circulating@, v@),
        MaterialDeltaAction::SecondaryOutput(v) => shortfall_fits(l.external_additions@, l.circulating@, v@),
        MaterialDeltaAction::SecondaryRecovery(v) => shortfall_fits(l.external_additions@, l.secondary_physical@, v@),
        MaterialDeltaAction::Bury { region, materials, from_secondary, reason } => shortfall_fits(
            l.external_additions@,
            bury_source(l, from_secondary),
            materials@,
        ),
        MaterialDeltaAction::Recover { region, material, processed, recovered } => recover_fits(
            l,
            region,
            material@,
            processed,
            recovered,
        ),
        MaterialDeltaAction::External { .. } => true,
    }
}

/// No amount that `action` adds saturates at `u64::MAX`.
pub open spec fn delta_no_saturation(l: MaterialLedger, action: MaterialDeltaAction) -> bool {
    match action {
        MaterialDeltaAction::Operation(op) => op_no_saturation(l, op),
        MaterialDeltaAction::RecipeLoss(v) => adds_fit(l.explicit_loss@, v@),
        MaterialDeltaAction::Consumption(v) => adds_fit(l.explicit_consumption@, v@),
        MaterialDeltaAction::AdminDeletion(v) => adds_fit(l.explicit_loss@, v@),
        MaterialDeltaAction::SecondaryOutput(v) => adds_fit(l.secondary_physical@, v@),
        MaterialDeltaAction::SecondaryRecovery(v) => adds_fit(l.circulating@, v@),
        MaterialDeltaAction::Bury { region, materials, .. } => adds_fit(pool_view(l.salvage@, region), materials@),
        MaterialDeltaAction::Recover { .. } => true,
        MaterialDeltaAction::External { materials, secondary, .. } => adds_fit(l.external_additions@, materials@)
            && adds_fit(bury_source(l, secondary), materials@),
    }
}

/// When applying `action` fails.
pub open spec fn delta_refused(l: MaterialLedger, action: MaterialDeltaAction) -> bool {
    match action {
        MaterialDeltaAction::Operation(op) => op_refused(l, op),
        MaterialDeltaAction::Recover { region, material, processed, .. } => recover_refused(l, region, material@, processed),
        _ => false,
    }
}

/// `b` is `a` after applying `action`.
pub open spec fn spec_delta_applied(a: MaterialLedger, b: MaterialLedger, action: MaterialDeltaAction) -> bool {
    match action {
        MaterialDeltaAction::Operation(op) => spec_op_applied(a, b, op),
        MaterialDeltaAction::RecipeLoss(v) => spec_moved_to_sink(a, b, v, Sink::Loss),
        MaterialDeltaAction::Consumption(v) => spec_moved_to_sink(a, b, v, Sink::Consumption),
        MaterialDeltaAction::AdminDeletion(v) => spec_moved_to_sink(a, b, v, Sink::Loss),
        MaterialDeltaAction::SecondaryOutput(v) => spec_moved_to_sink(a, b, v, Sink::Secondary),
        MaterialDeltaAction::SecondaryRecovery(v) => spec_recovered_secondary(a, b, v),
        MaterialDeltaAction::Bury { region, materials, from_secondary, reason } => spec_buried(
            a,
            b,
            region,
            materials,
            from_secondary,
            reason@,
        ),
        MaterialDeltaAction::Recover { region, material, processed, recovered } => spec_recovered(
            a,
            b,
            region,
            material@,
            processed,
            recovered,
        ),
        MaterialDeltaAction::External { materials, secondary, source } => spec_externally_added(
            a,
            b,
            materials,
            secondary,
            source@,
        ),
    }
}

/// What the journal validates before it accepts `action`.
pub open spec fn validate_refused(l: MaterialLedger, action: MaterialDeltaAction) -> bool {
    match action {
        MaterialDeltaAction::Operation(op) => op_refused(l, op),
        MaterialDeltaAction::Recover { region, material, processed, recovered } => recovered > processed || amt(
            pool_view(l.salvage@, region),
            material@,
        ) < processed,
        _ => false,
    }
}

impl MaterialLedger {
    /// Apply one journaled delta to the compartments.
    ///
    /// For every material, the units that entered the ledger (original
    /// deposits plus named external additions) minus the units in every
    /// compartment and sink is the same before and after a successful
    /// delta, unless an addition saturated at `u64::MAX`. Refused deltas
    /// change nothing but, for an operation, the operation counter.
    pub fn apply_delta_action(&mut self, action: &MaterialDeltaAction) -> (r: Result<(), LedgerError>)
        requires
            ledger_wf(*old(self)),
            delta_fits(*old(self), *action),
        ensures
            ledger_wf(*final(self)),
            r is Err <==> delta_refused(*old(self), *action),
            r is Err ==> *final(self) == match *action {
                MaterialDeltaAction::Operation(op) => with_next(*old(self), bumped_next(*old(self), op)),
                _ => *old(self),
            },
            r is Ok ==> spec_delta_applied(*old(self), *final(self), *action),
            r is Ok && delta_no_saturation(*old(self), *action) ==> forall|m: Seq<char>|
                #[trigger] spec_unexplained(*final(self), m) == spec_unexplained(*old(self), m),
    {
        match action {
            MaterialDeltaAction::Operation(op) => self.apply_operation_in_memory(op),
            MaterialDeltaAction::RecipeLoss(v) => {
                self.move_to_sink(v, Sink::Loss);
                Ok(())
            },
            MaterialDeltaAction::Consumption(v) => {
                self.move_to_sink(v, Sink::Consumption);
                Ok(())
            },
            MaterialDeltaAction::AdminDeletion(v) => {
                self.move_to_sink(v, Sink::Loss);
                Ok(())
            },
            MaterialDeltaAction::SecondaryOutput(v) => {
                self.move_to_sink(v, Sink::Secondary);
                Ok(())
            },
            MaterialDeltaAction::SecondaryRecovery(v) => {
                self.recover_secondary(v);
                Ok(())
            },
            MaterialDeltaAction::Bury { region, materials, from_secondary, reason } => {
                self.bury(*region, materials, *from_secondary, reason.as_str());
                Ok(())
            },
            MaterialDeltaAction::Recover { region, material, processed, recovered } => {
                self.recover(*region, material.as_str(), *processed, *recovered)
            },
            MaterialDeltaAction::External { materials, secondary, source } => {
                self.add_external(materials, *secondary, source.as_str());
                Ok(())
            },
        }
    }

    /// Check a delta before it is journaled: a mined block must draw on a
    /// live reservation whose deposit holds its material, and a salvage
    /// recovery can neither exceed what it processes nor process more than
    /// its pool holds.
    pub fn validate_delta_action(&self, action: &MaterialDeltaAction) -> (r: Result<(), LedgerError>)
        requires
            ledger_wf(*self),
        ensures
            r is Err <==> validate_refused(*self, *action),
    {
        match action {
            MaterialDeltaAction::Operation(op) => {
                if op.id > self.last_applied_operation && op.kind == MaterialOperationKind::MineNatural {
                    let ghost l = *self;
                    let chunk = op.pos.chunk();
                    let ci = match find_chunk(&self.chunk_reservations, chunk) {
                        Some(i) => i,
                        None => {
                            return Err(LedgerError::MissingReservation);
                        },
                    };
                    proof {
                        assert(chunk_index(l, chunk) == ci as int);
                        assert(blocks_wf(l.chunk_reservations@[ci as int]));
                    }
                    let bi = match find_block(&self.chunk_reservations[ci].blocks, op.before.as_str()) {
                        Some(j) => j,
                        None => {
                            return Err(LedgerError::ReservationExhausted);
                        },
                    };
                    proof {
                        assert(block_index(l.chunk_reservations@[ci as int], op.before@) == bi as int);
                    }
                    let si = match find_open_slice(&self.chunk_reservations[ci].blocks[bi].slices) {
                        Some(k) => k,
                        None => {
                            return Err(LedgerError::ReservationExhausted);
                        },
                    };
                    let slice = self.chunk_reservations[ci].blocks[bi].slices[si];
                    proof {
                        assert(reserved_slices(l, chunk, op.before@) == l.chunk_reservations@[ci as int].blocks@[bi as int].slices@);
                    }
                    let di = match find_deposit(&self.deposits, slice.deposit_id) {
                        Some(d) => d,
                        None => {
                            return Err(LedgerError::MissingDeposit);
                        },
                    };
                    proof {
                        assert(deposit_index(l, slice.deposit_id) == di as int);
                    }
                    if let Some(k) = first_shortfall(&self.deposits[di].materialized_underground, &op.materials) {
                        return Err(LedgerError::DepositLacks { deposit: slice.deposit_id, material: op.materials.name_at(k).to_owned() });
                    }
                }
                Ok(())
            },
            MaterialDeltaAction::Recover { region, material, processed, recovered } => {
                if *recovered > *processed {
                    return Err(LedgerError::RecoveryExceedsProcessed);
                }
                let available = match find_pool(&self.salvage, *region) {
                    Some(i) => {
                        proof {
                            lemma_pool_view_at(self.salvage@, i as int);
                        }
                        self.salvage[i].1.materials.units(material.as_str())
                    },
                    None => 0,
                };
                if available < *processed {
                    return Err(LedgerError::SalvageShort { material: material.clone(), available, needed: *processed });
                }
                Ok(())
            },
            _ => Ok(()),
        }
    }
}


// ---------------------------------------------------------------------------
// Journaling: staging deltas for the append log and applying committed ones.

/// The journal position the next delta takes.
pub open spec fn next_seq(l: MaterialLedger) -> u64 {
    if l.last_delta_seq == u64::MAX {
        u64::MAX
    } else {
        (l.last_delta_seq + 1) as u64
    }
}

pub open spec fn with_seq(l: MaterialLedger, seq: u64) -> MaterialLedger {
    MaterialLedger { last_delta_seq: seq, ..l }
}

impl MaterialOperation {
    /// A copy of this operation.
    pub fn duplicate(&self) -> (r: MaterialOperation)
        ensures
            r.id == self.id,
            r.kind == self.kind,
            r.pos == self.pos,
            r.before@ == self.before@,
            r.after@ == self.after@,
            r.materials@ == self.materials@,
    {
        MaterialOperation {
            id: self.id,
            kind: self.kind,
            pos: self.pos,
            before: self.before.clone(),
            after: self.after.clone(),
            materials: self.materials.duplicate(),
        }
    }
}

impl MaterialLedger {
    /// Validate `action` and give it the next journal position. The caller
    /// makes the delta durable, then applies it with `apply_committed`.
    pub fn stage_delta(&self, action: MaterialDeltaAction) -> (r: Result<MaterialDelta, LedgerError>)
        requires
            ledger_wf(*self),
        ensures
            r is Err <==> validate_refused(*self, action),
            r matches Ok(d) ==> d.seq == next_seq(*self) && d.action == action,
    {
        match self.validate_delta_action(&action) {
            Ok(()) => Ok(MaterialDelta { seq: self.last_delta_seq.saturating_add(1), action }),
            Err(e) => Err(e),
        }
    }

    /// Apply a delta that the journal made durable and advance the
    /// journal position to it.
    pub fn apply_committed(&mut self, delta: &MaterialDelta) -> (r: Result<(), LedgerError>)
        requires
            ledger_wf(*old(self)),
            delta_fits(*old(self), delta.action),
        ensures
            ledger_wf(*final(self)),
            r is Err <==> delta_refused(*old(self), delta.action),
            r is Err ==> *final(self) == match delta.action {
                MaterialDeltaAction::Operation(op) => with_next(*old(self), bumped_next(*old(self), op)),
                _ => *old(self),
            },
            r is Ok ==> final(self).last_delta_seq == delta.seq,
            r is Ok ==> spec_delta_applied(*old(self), with_seq(*final(self), old(self).last_delta_seq), delta.action),
            r is Ok && delta_no_saturation(*old(self), delta.action) ==> forall|m: Seq<char>|
                #[trigger] spec_unexplained(*final(self), m) == spec_unexplained(*old(self), m),
    {
        let ghost a = *self;
        match self.apply_delta_action(&delta.action) {
            Ok(()) => {},
            Err(e) => {
                return Err(e);
            },
        }
        let ghost b = *self;
        self.last_delta_seq = delta.seq;
        proof {
            assert(with_seq(*self, a.last_delta_seq) == b);
            assert forall|m: Seq<char>| #[trigger] spec_unexplained(*self, m) == spec_unexplained(b, m) by {}
        }
        Ok(())
    }

    /// Stage the recipe loss `loss`; nothing is journaled when it is empty.
    pub fn record_recipe_loss(&self, loss: &MaterialVector) -> (r: Option<MaterialDelta>)
        requires
            ledger_wf(*self),
        ensures
            r is None <==> loss@.dom().len() == 0,
            r matches Some(d) ==> (d.seq == next_seq(*self) && (d.action matches MaterialDeltaAction::RecipeLoss(v) && v@ == loss@)),
    {
        if loss.is_empty() {
            return None;
        }
        match self.stage_delta(MaterialDeltaAction::RecipeLoss(loss.duplicate())) {
            Ok(d) => Some(d),
            Err(_) => None,
        }
    }

    /// Stage `count` copies of the recipe loss `loss`.
    pub fn record_recipe_loss_scaled(&self, loss: &MaterialVector, count: u32) -> (r: Option<MaterialDelta>)
        requires
            ledger_wf(*self),
        ensures
            r is None <==> spec_add_vector(Map::empty(), loss@, count as int).dom().len() == 0,
            r matches Some(d) ==> (d.seq == next_seq(*self) && (d.action matches MaterialDeltaAction::RecipeLoss(v)
                && v@ == spec_add_vector(Map::empty(), loss@, count as int))),
    {
        self.record_recipe_loss(&scaled(loss, count as u64))
    }

    /// Stage consumed material (food, fuel, offerings, spoilage).
    pub fn record_consumption(&self, materials: &MaterialVector) -> (r: Option<MaterialDelta>)
        requires
            ledger_wf(*self),
        ensures
            r is None <==> materials@.dom().len() == 0,
            r matches Some(d) ==> (d.seq == next_seq(*self) && (d.action matches MaterialDeltaAction::Consumption(v) && v@ == materials@)),
    {
        if materials.is_empty() {
            return None;
        }
        match self.stage_delta(MaterialDeltaAction::Consumption(materials.duplicate())) {
            Ok(d) => Some(d),
            Err(_) => None,
        }
    }

    /// Stage the burial of `materials` at `pos` in its region's pool.
    pub fn bury_materials(&self, pos: BlockPos, materials: &MaterialVector, reason: &str) -> (r: Option<MaterialDelta>)
        requires
            ledger_wf(*self),
        ensures
            r is None <==> materials@.dom().len() == 0,
            r matches Some(d) ==> (d.seq == next_seq(*self) && (d.action matches MaterialDeltaAction::Bury { region, materials: v, from_secondary, reason: why }
                && region == spec_region_at(pos) && v@ == materials@ && !from_secondary && why@ == reason@)),
    {
        if materials.is_empty() {
            return None;
        }
        let action = MaterialDeltaAction::Bury {
            region: SalvageRegion::at(pos),
            materials: materials.duplicate(),
            from_secondary: false,
            reason: reason.to_owned(),
        };
        match self.stage_delta(action) {
            Ok(d) => Some(d),
            Err(_) => None,
        }
    }

    /// Stage an admin deletion of `materials` from circulation.
    pub fn record_admin_deletion(&self, materials: &MaterialVector) -> (r: Option<MaterialDelta>)
        requires
            ledger_wf(*self),
        ensures
            r is None <==> materials@.dom().len() == 0,
            r matches Some(d) ==> (d.seq == next_seq(*self) && (d.action matches MaterialDeltaAction::AdminDeletion(v) && v@ == materials@)),
    {
        if materials.is_empty() {
            return None;
        }
        match self.stage_delta(MaterialDeltaAction::AdminDeletion(materials.duplicate())) {
            Ok(d) => Some(d),
            Err(_) => None,
        }
    }

    /// Stage scale or slag leaving circulation as secondary stock.
    pub fn record_secondary_output(&self, materials: &MaterialVector) -> (r: Option<MaterialDelta>)
        requires
            ledger_wf(*self),
        ensures
            r is None <==> materials@.dom().len() == 0,
            r matches Some(d) ==> (d.seq == next_seq(*self) && (d.action matches MaterialDeltaAction::SecondaryOutput(v) && v@ == materials@)),
    {
        if materials.is_empty() {
            return None;
        }
        match self.stage_delta(MaterialDeltaAction::SecondaryOutput(materials.duplicate())) {
            Ok(d) => Some(d),
            Err(_) => None,
        }
    }

    /// Stage secondary stock returning to circulation.
    pub fn record_secondary_recovery(&self, materials: &MaterialVector) -> (r: Option<MaterialDelta>)
        requires
            ledger_wf(*self),
        ensures
            r is None <==> materials@.dom().len() == 0,
            r matches Some(d) ==> (d.seq == next_seq(*self) && (d.action matches MaterialDeltaAction::SecondaryRecovery(v) && v@ == materials@)),
    {
        if materials.is_empty() {
            return None;
        }
        match self.stage_delta(MaterialDeltaAction::SecondaryRecovery(materials.duplicate())) {
            Ok(d) => Some(d),
            Err(_) => None,
        }
    }

    /// Stage material introduced by the named non-planetary `source`.
    pub fn record_external_materials(&self, materials: &MaterialVector, secondary: bool, source: &str) -> (r: Option<MaterialDelta>)
        requires
            ledger_wf(*self),
        ensures
            r is None <==> materials@.dom().len() == 0,
            r matches Some(d) ==> (d.seq == next_seq(*self) && (d.action matches MaterialDeltaAction::External { materials: v, secondary: sec, source: src }
                && v@ == materials@ && sec == secondary && src@ == source@)),
    {
        if materials.is_empty() {
            return None;
        }
        let action = MaterialDeltaAction::External { materials: materials.duplicate(), secondary, source: source.to_owned() };
        match self.stage_delta(action) {
            Ok(d) => Some(d),
            Err(_) => None,
        }
    }

    /// Remove authored secondary stock without pretending play transformed
    /// it: it first returns to circulation, then an admin deletion removes
    /// it. The two deltas take consecutive journal positions.
    pub fn record_admin_secondary_deletion(&self, materials: &MaterialVector) -> (r: Vec<MaterialDelta>)
        requires
            ledger_wf(*self),
            self.last_delta_seq < u64::MAX,
        ensures
            materials@.dom().len() == 0 ==> r@.len() == 0,
            materials@.dom().len() != 0 ==> r@.len() == 2
                && r@[0].seq == self.last_delta_seq + 1
                && (r@[0].action matches MaterialDeltaAction::SecondaryRecovery(v) && v@ == materials@)
                && r@[1].seq == next_seq(with_seq(*self, r@[0].seq))
                && (r@[1].action matches MaterialDeltaAction::AdminDeletion(v) && v@ == materials@),
    {
        let mut out: Vec<MaterialDelta> = Vec::new();
        if materials.is_empty() {
            return out;
        }
        let first = MaterialDelta { seq: self.last_delta_seq + 1, action: MaterialDeltaAction::SecondaryRecovery(materials.duplicate()) };
        let second = MaterialDelta {
            seq: (self.last_delta_seq + 1).saturating_add(1),
            action: MaterialDeltaAction::AdminDeletion(materials.duplicate()),
        };
        out.push(first);
        out.push(second);
        out
    }

    /// Stage the in-memory part of a salvage recovery: up to `requested`
    /// units of `material` from `region`'s pool are processed, and
    /// `recovery_permille` thousandths of them (rounded down) come back.
    /// Returns the recovered units and the delta to journal, if any.
    pub fn recover_salvage(&self, region: SalvageRegion, material: &str, requested: u64, recovery_permille: u16) -> (r: (u64, Option<MaterialDelta>))
        requires
            ledger_wf(*self),
        ensures
            ({
                let available = amt(pool_view(self.salvage@, region), material@);
                let processed: int = if available < requested { available as int } else { requested as int };
                let permille = if recovery_permille < 1000 { recovery_permille as int } else { 1000 };
                let recovered = sat_mul(processed, permille) / 1000;
                &&& !has_region(self.salvage@, region) ==> r == (0u64, None::<MaterialDelta>)
                &&& has_region(self.salvage@, region) ==> r.0 == recovered
                &&& has_region(self.salvage@, region) ==> (r.1 is Some <==> processed != 0)
                &&& r.1 matches Some(d) ==> (d.seq == next_seq(*self) && (d.action matches MaterialDeltaAction::Recover { region: rg, material: m, processed: p, recovered: q }
                    && rg == region && m@ == material@ && p == processed && q == recovered))
            }),
    {
        let i = match find_pool(&self.salvage, region) {
            Some(i) => i,
            None => {
                return (0, None);
            },
        };
        proof {
            lemma_pool_view_at(self.salvage@, i as int);
        }
        let available = self.salvage[i].1.materials.units(material);
        let processed = if available < requested { available } else { requested };
        let permille: u64 = if recovery_permille < 1000 { recovery_permille as u64 } else { 1000 };
        let recovered = crate::vector::saturating_mul(processed, permille) / 1000;
        if processed == 0 {
            return (recovered, None);
        }
        proof {
            assert(recovered <= processed) by (nonlinear_arith)
                requires
                    permille <= 1000,
                    recovered == sat_mul(processed as int, permille as int) / 1000,
            {
                assert(processed * permille <= processed * 1000);
            }
        }
        let action = MaterialDeltaAction::Recover { region, material: material.to_owned(), processed, recovered };
        match self.stage_delta(action) {
            Ok(d) => (recovered, Some(d)),
            Err(_) => (recovered, None),
        }
    }
}


// ---------------------------------------------------------------------------
// Voxel operation journal entries.

pub open spec fn sat_next(n: u64) -> u64 {
    if n == u64::MAX {
        u64::MAX
    } else {
        (n + 1) as u64
    }
}

pub open spec fn spec_is_secondary(name: Seq<char>) -> bool {
    name == "base:iron_slag"@ || spec_ends_with(name, "/primitive_scale"@) || spec_ends_with(
        name,
        "/forge_scale"@,
    ) || spec_ends_with(name, "/dismantling_scale"@)
}

pub open spec fn spec_is_reclaimable(name: Seq<char>) -> bool {
    spec_ends_with(name, "/primitive_scrap"@) || spec_ends_with(name, "/forge_scrap"@) || spec_ends_with(
        name,
        "/dismantled_stock"@,
    )
}

/// Scale, slag and tailings: secondary stock that only later technology
/// recovers.
pub fn is_secondary_item(reg: &Registry, item: ItemId) -> (r: bool)
    requires
        reg.valid_item(item),
    ensures
        r == spec_is_secondary(reg.spec_item(item).name@),
{
    let name = reg.item(item).name.as_str();
    proof {
        reveal_strlit("base:iron_slag");
        reveal_strlit("/primitive_scale");
        reveal_strlit("/forge_scale");
        reveal_strlit("/dismantling_scale");
    }
    str_eq(name, "base:iron_slag") || ends_with(name, "/primitive_scale") || ends_with(name, "/forge_scale")
        || ends_with(name, "/dismantling_scale")
}

/// Accounted recovered stock that a hot forge can consolidate.
pub fn is_reclaimable_stock(reg: &Registry, item: ItemId) -> (r: bool)
    requires
        reg.valid_item(item),
    ensures
        r == spec_is_reclaimable(reg.spec_item(item).name@),
{
    let name = reg.item(item).name.as_str();
    proof {
        reveal_strlit("/primitive_scrap");
        reveal_strlit("/forge_scrap");
        reveal_strlit("/dismantled_stock");
    }
    ends_with(name, "/primitive_scrap") || ends_with(name, "/forge_scrap") || ends_with(name, "/dismantled_stock")
}

/// The tracked material of a whole stack.
pub fn stack_materials(reg: &Registry, stack: ItemStack) -> (r: MaterialVector)
    requires
        reg.valid_item(stack.item),
    ensures
        r@ == spec_add_vector(Map::empty(), reg.spec_item(stack.item).materials@, stack.count as int),
{
    scaled(&reg.item(stack.item).materials, stack.count as u64)
}

impl MaterialLedger {
    /// Journal entry for a voxel edit that moves material. The operation
    /// takes the next operation id.
    pub fn begin_operation(
        &mut self,
        kind: MaterialOperationKind,
        pos: BlockPos,
        before: String,
        after: String,
        materials: MaterialVector,
    ) -> (r: MaterialOperation)
        ensures
            *final(self) == with_next(*old(self), sat_next(old(self).next_operation_id)),
            r.id == old(self).next_operation_id,
            r.kind == kind,
            r.pos == pos,
            r.before == before,
            r.after == after,
            r.materials == materials,
    {
        let operation = MaterialOperation { id: self.next_operation_id, kind, pos, before, after, materials };
        self.next_operation_id = self.next_operation_id.saturating_add(1);
        operation
    }

    /// Journal entry for breaking a material-bearing block: a natural ore
    /// block is mined from its reservation, a placed one returns what was
    /// recorded for it. Nothing is journaled for material-free blocks.
    pub fn begin_break(&mut self, pos: BlockPos, block_name: &str, materials: &MaterialVector) -> (r: Option<MaterialOperation>)
        ensures
            materials@.dom().len() == 0 ==> r is None && *final(self) == *old(self),
            materials@.dom().len() != 0 ==> (r matches Some(op) && op.id == old(self).next_operation_id
                && op.kind == (if has_pos(old(self).placed_positions@, pos) {
                    MaterialOperationKind::BreakPlaced
                } else {
                    MaterialOperationKind::MineNatural
                }) && op.pos == pos && op.before@ == block_name@ && op.after@ == "base:air"@ && op.materials@ == materials@
                && *final(self) == with_next(*old(self), sat_next(old(self).next_operation_id))),
    {
        if materials.is_empty() {
            return None;
        }
        let kind = match find_placed(&self.placed_positions, pos) {
            Some(_) => MaterialOperationKind::BreakPlaced,
            None => MaterialOperationKind::MineNatural,
        };
        proof {
            reveal_strlit("base:air");
        }
        Some(self.begin_operation(kind, pos, block_name.to_owned(), "base:air".to_owned(), materials.duplicate()))
    }

    /// Journal entry for placing a material-bearing block.
    pub fn begin_place(&mut self, pos: BlockPos, before: &str, block_name: &str, materials: &MaterialVector) -> (r: Option<MaterialOperation>)
        ensures
            materials@.dom().len() == 0 ==> r is None && *final(self) == *old(self),
            materials@.dom().len() != 0 ==> (r matches Some(op) && op.id == old(self).next_operation_id
                && op.kind == MaterialOperationKind::Place && op.pos == pos && op.before@ == before@
                && op.after@ == block_name@ && op.materials@ == materials@
                && *final(self) == with_next(*old(self), sat_next(old(self).next_operation_id))),
    {
        if materials.is_empty() {
            return None;
        }
        Some(self.begin_operation(MaterialOperationKind::Place, pos, before.to_owned(), block_name.to_owned(), materials.duplicate()))
    }

    /// Journal entry for an authored placement whose material enters from
    /// the named external `source`; the source rides after a NUL in the
    /// operation's prior block name.
    pub fn begin_authored_place(
        &mut self,
        pos: BlockPos,
        before: &str,
        block_name: &str,
        materials: &MaterialVector,
        source: &str,
    ) -> (r: Option<MaterialOperation>)
        ensures
            materials@.dom().len() == 0 ==> r is None && *final(self) == *old(self),
            materials@.dom().len() != 0 ==> (r matches Some(op) && op.id == old(self).next_operation_id
                && op.kind == MaterialOperationKind::AuthoredPlace && op.pos == pos
                && op.before@ == before@ + seq![AUTHORED_SOURCE_SEPARATOR] + source@
                && op.after@ == block_name@ && op.materials@ == materials@
                && *final(self) == with_next(*old(self), sat_next(old(self).next_operation_id))),
    {
        if materials.is_empty() {
            return None;
        }
        let mut tagged = before.to_owned();
        proof {
            reveal_strlit("\0");
        }
        tagged.append("\0");
        tagged.append(source);
        Some(self.begin_operation(MaterialOperationKind::AuthoredPlace, pos, tagged, block_name.to_owned(), materials.duplicate()))
    }

    /// Stage a journaled voxel operation; an operation already applied
    /// stages nothing.
    pub fn apply_operation(&self, op: &MaterialOperation) -> (r: Result<Option<MaterialDelta>, LedgerError>)
        requires
            ledger_wf(*self),
        ensures
            op.id <= self.last_applied_operation ==> r matches Ok(None),
            op.id > self.last_applied_operation ==> (r is Err <==> op_refused(*self, *op)),
            r matches Ok(Some(d)) ==> (d.seq == next_seq(*self) && (d.action matches MaterialDeltaAction::Operation(o)
                && o.id == op.id && o.kind == op.kind && o.pos == op.pos && o.before@ == op.before@
                && o.after@ == op.after@ && o.materials@ == op.materials@)),
            r matches Ok(None) ==> op.id <= self.last_applied_operation,
    {
        if op.id <= self.last_applied_operation {
            return Ok(None);
        }
        match self.stage_delta(MaterialDeltaAction::Operation(op.duplicate())) {
            Ok(d) => Ok(Some(d)),
            Err(e) => Err(e),
        }
    }

    /// Stage the burial of a whole item stack at `pos`; scale and slag come
    /// from secondary stock.
    pub fn bury_stack(&self, reg: &Registry, pos: BlockPos, stack: ItemStack, reason: &str) -> (r: Option<MaterialDelta>)
        requires
            ledger_wf(*self),
            reg.valid_item(stack.item),
        ensures
            ({
                let mats = spec_add_vector(Map::empty(), reg.spec_item(stack.item).materials@, stack.count as int);
                &&& r is None <==> mats.dom().len() == 0
                &&& r matches Some(d) ==> (d.seq == next_seq(*self) && (d.action matches MaterialDeltaAction::Bury { region, materials: v, from_secondary, reason: why }
                    && region == spec_region_at(pos) && v@ == mats && from_secondary == spec_is_secondary(reg.spec_item(stack.item).name@)
                    && why@ == reason@))
            }),
    {
        let materials = stack_materials(reg, stack);
        if materials.is_empty() {
            return None;
        }
        let action = MaterialDeltaAction::Bury {
            region: SalvageRegion::at(pos),
            materials,
            from_secondary: is_secondary_item(reg, stack.item),
            reason: reason.to_owned(),
        };
        match self.stage_delta(action) {
            Ok(d) => Some(d),
            Err(_) => None,
        }
    }

    /// Stage a stack introduced by the named external `source`.
    pub fn record_external_stack(&self, reg: &Registry, stack: ItemStack, source: &str) -> (r: Option<MaterialDelta>)
        requires
            ledger_wf(*self),
            reg.valid_item(stack.item),
        ensures
            ({
                let mats = spec_add_vector(Map::empty(), reg.spec_item(stack.item).materials@, stack.count as int);
                &&& r is None <==> mats.dom().len() == 0
                &&& r matches Some(d) ==> (d.seq == next_seq(*self) && (d.action matches MaterialDeltaAction::External { materials: v, secondary, source: src }
                    && v@ == mats && secondary == spec_is_secondary(reg.spec_item(stack.item).name@) && src@ == source@))
            }),
    {
        let materials = stack_materials(reg, stack);
        let secondary = is_secondary_item(reg, stack.item);
        self.record_external_materials(&materials, secondary, source)
    }

    /// Remove an authored or debug stack: secondary stock first returns to
    /// circulation, then an admin deletion removes the stack's material.
    pub fn record_admin_stack_deletion(&self, reg: &Registry, stack: ItemStack) -> (r: Vec<MaterialDelta>)
        requires
            ledger_wf(*self),
            reg.valid_item(stack.item),
            self.last_delta_seq < u64::MAX,
        ensures
            ({
                let mats = spec_add_vector(Map::empty(), reg.spec_item(stack.item).materials@, stack.count as int);
                let secondary = spec_is_secondary(reg.spec_item(stack.item).name@);
                &&& mats.dom().len() == 0 ==> r@.len() == 0
                &&& (mats.dom().len() != 0 && !secondary) ==> (r@.len() == 1 && r@[0].seq == next_seq(*self)
                    && (r@[0].action matches MaterialDeltaAction::AdminDeletion(v) && v@ == mats))
                &&& (mats.dom().len() != 0 && secondary) ==> (r@.len() == 2 && r@[0].seq == next_seq(*self)
                    && (r@[0].action matches MaterialDeltaAction::SecondaryRecovery(v) && v@ == mats)
                    && r@[1].seq == next_seq(with_seq(*self, r@[0].seq))
                    && (r@[1].action matches MaterialDeltaAction::AdminDeletion(v) && v@ == mats))
            }),
    {
        let materials = stack_materials(reg, stack);
        if is_secondary_item(reg, stack.item) {
            return self.record_admin_secondary_deletion(&materials);
        }
        let mut out: Vec<MaterialDelta> = Vec::new();
        if let Some(d) = self.record_admin_deletion(&materials) {
            out.push(d);
        }
        out
    }
}


// ---------------------------------------------------------------------------
// Retrogeneration records.

/// Each mod resource has at most one retrogeneration record.
pub open spec fn retrogen_keys_distinct(l: MaterialLedger) -> bool {
    forall|i: int, j: int|
        0 <= i < l.retrogen@.len() && 0 <= j < l.retrogen@.len() && i != j ==> l.retrogen@[i].resource_key@
            != l.retrogen@[j].resource_key@
}

pub open spec fn has_retrogen(l: MaterialLedger, key: Seq<char>) -> bool {
    exists|i: int| 0 <= i < l.retrogen@.len() && l.retrogen@[i].resource_key@ == key
}

pub open spec fn spec_record_pending(r: RetrogenRecord, chunk: ChunkPos) -> bool {
    r.policy == RetrogenPolicyRecord::UntouchedHostOnly && spec_contains_seq(r.status@, "pending"@)
        && !r.applied_chunks@.contains(chunk)
}

pub open spec fn spec_policy_words(p: RetrogenPolicyRecord) -> Seq<char> {
    match p {
        RetrogenPolicyRecord::UntouchedHostOnly => "untouched host only"@,
        RetrogenPolicyRecord::SecondaryRecovery => "secondary recovery"@,
        RetrogenPolicyRecord::WorldEvent => "world event"@,
        RetrogenPolicyRecord::NoRetrogen => "no retrogen"@,
    }
}

/// The coordinate-free notice players see for one record.
pub open spec fn spec_notice(r: RetrogenRecord) -> Seq<char> {
    "Finite material "@ + r.resource_key@ + " ("@ + spec_policy_words(r.policy) + "): "@ + spec_trim_end(
        r.status@,
        '.',
    ) + "."@
}

fn policy_words(p: RetrogenPolicyRecord) -> (r: &'static str)
    ensures
        r@ == spec_policy_words(p),
{
    match p {
        RetrogenPolicyRecord::UntouchedHostOnly => "untouched host only",
        RetrogenPolicyRecord::SecondaryRecovery => "secondary recovery",
        RetrogenPolicyRecord::WorldEvent => "world event",
        RetrogenPolicyRecord::NoRetrogen => "no retrogen",
    }
}

fn find_chunk_pos(list: &Vec<ChunkPos>, c: ChunkPos) -> (r: bool)
    ensures
        r == list@.contains(c),
{
    let mut i: usize = 0;
    while i < list.len()
        invariant
            i <= list@.len(),
            forall|j: int| 0 <= j < i ==> list@[j] != c,
        decreases list@.len() - i,
    {
        if list[i] == c {
            assert(list@[i as int] == c);
            return true;
        }
        i = i + 1;
    }
    false
}

pub open spec fn with_retrogen(l: MaterialLedger, r: Vec<RetrogenRecord>) -> MaterialLedger {
    MaterialLedger { retrogen: r, ..l }
}

/// Record `b` is record `a` after marking `chunk` for the named resources.
pub open spec fn spec_marked(a: RetrogenRecord, b: RetrogenRecord, keys: Seq<String>, chunk: ChunkPos) -> bool {
    &&& b.mod_id == a.mod_id
    &&& b.resource_key == a.resource_key
    &&& b.policy == a.policy
    &&& b.algorithm_version == a.algorithm_version
    &&& b.added_mass == a.added_mass
    &&& b.unit_materials == a.unit_materials
    &&& b.status == a.status
    &&& b.applied_chunks@ == if (exists|k: int| 0 <= k < keys.len() && keys[k]@ == a.resource_key@)
        && !a.applied_chunks@.contains(chunk) {
        a.applied_chunks@.push(chunk)
    } else {
        a.applied_chunks@
    }
}

impl MaterialLedger {
    /// Whether `chunk` still owes deterministic untouched-host
    /// retrogeneration of `resource_key`.
    pub fn retrogen_pending_for(&self, resource_key: &str, chunk: ChunkPos) -> (r: bool)
        requires
            retrogen_keys_distinct(*self),
        ensures
            r == exists|i: int|
                0 <= i < self.retrogen@.len() && self.retrogen@[i].resource_key@ == resource_key@
                    && spec_record_pending(self.retrogen@[i], chunk),
    {
        let mut i: usize = 0;
        while i < self.retrogen.len()
            invariant
                i <= self.retrogen@.len(),
                retrogen_keys_distinct(*self),
                forall|j: int| 0 <= j < i ==> self.retrogen@[j].resource_key@ != resource_key@,
            decreases self.retrogen@.len() - i,
        {
            let record = &self.retrogen[i];
            if str_eq(record.resource_key.as_str(), resource_key) {
                proof {
                    reveal_strlit("pending");
                }
                let pending = record.policy == RetrogenPolicyRecord::UntouchedHostOnly && str_contains(
                    record.status.as_str(),
                    "pending",
                ) && !find_chunk_pos(&record.applied_chunks, chunk);
                proof {
                    assert forall|j: int| 0 <= j < self.retrogen@.len() && self.retrogen@[j].resource_key@ == resource_key@ implies j == i by {}
                }
                return pending;
            }
            i = i + 1;
        }
        false
    }

    /// Coordinate-free policy notices safe for ordinary clients, one per
    /// record.
    pub fn retrogen_notices(&self) -> (r: Vec<String>)
        ensures
            r@.len() == self.retrogen@.len(),
            forall|i: int| 0 <= i < r@.len() ==> #[trigger] r@[i]@ == spec_notice(self.retrogen@[i]),
    {
        let mut out: Vec<String> = Vec::new();
        let mut i: usize = 0;
        while i < self.retrogen.len()
            invariant
                i <= self.retrogen@.len(),
                out@.len() == i,
                forall|j: int| 0 <= j < i ==> #[trigger] out@[j]@ == spec_notice(self.retrogen@[j]),
            decreases self.retrogen@.len() - i,
        {
            let record = &self.retrogen[i];
            proof {
                reveal_strlit("Finite material ");
                reveal_strlit(" (");
                reveal_strlit("): ");
                reveal_strlit(".");
            }
            let mut line = "Finite material ".to_owned();
            line.append(record.resource_key.as_str());
            line.append(" (");
            line.append(policy_words(record.policy));
            line.append("): ");
            line.append(trim_end_char(record.status.as_str(), '.'));
            line.append(".");
            out.push(line);
            i = i + 1;
        }
        out
    }

    /// Note that `chunk` received retrogeneration for each named resource
    /// that has a record.
    pub fn mark_retrogen_chunk(&mut self, resource_keys: &Vec<String>, chunk: ChunkPos)
        requires
            retrogen_keys_distinct(*old(self)),
        ensures
            final(self).retrogen@.len() == old(self).retrogen@.len(),
            forall|i: int|
                0 <= i < old(self).retrogen@.len() ==> spec_marked(
                    #[trigger] old(self).retrogen@[i],
                    final(self).retrogen@[i],
                    resource_keys@,
                    chunk,
                ),
            *final(self) == with_retrogen(*old(self), final(self).retrogen),
    {
        let ghost orig = self.retrogen@;
        let mut i: usize = 0;
        while i < self.retrogen.len()
            invariant
                self.retrogen@.len() == orig.len(),
                i <= orig.len(),
                *self == with_retrogen(*old(self), self.retrogen),
                orig == old(self).retrogen@,
                forall|j: int| i <= j < orig.len() ==> #[trigger] self.retrogen@[j] == orig[j],
                forall|j: int| 0 <= j < i ==> spec_marked(#[trigger] orig[j], self.retrogen@[j], resource_keys@, chunk),
            decreases orig.len() - i,
        {
            let mut named = false;
            let mut k: usize = 0;
            while k < resource_keys.len()
                invariant
                    k <= resource_keys@.len(),
                    i < self.retrogen@.len(),
                    named == exists|x: int| 0 <= x < k && resource_keys@[x]@ == self.retrogen@[i as int].resource_key@,
                decreases resource_keys@.len() - k,
            {
                if str_eq(resource_keys[k].as_str(), self.retrogen[i].resource_key.as_str()) {
                    named = true;
                }
                k = k + 1;
            }
            if named && !find_chunk_pos(&self.retrogen[i].applied_chunks, chunk) {
                let mut record = self.retrogen.remove(i);
                record.applied_chunks.push(chunk);
                self.retrogen.insert(i, record);
            }
            i = i + 1;
        }
    }
}


// ---------------------------------------------------------------------------
// Saved material identities of content definitions.

/// Whether two vectors hold the same amounts under the same names.
pub fn same_vector(a: &MaterialVector, b: &MaterialVector) -> (r: bool)
    ensures
        r == (a@ == b@),
{
    let n = a.len();
    if n != b.len() {
        return false;
    }
    proof {
        a.lemma_consistent();
        b.lemma_consistent();
    }
    let mut i: usize = 0;
    while i < n
        invariant
            n == a.spec_len(),
            a.consistent(),
            b.consistent(),
            a@.dom().len() == b@.dom().len(),
            i <= n,
            forall|j: int| 0 <= j < i ==> b@.contains_key(#[trigger] a.name_at_spec(j)) && b@[a.name_at_spec(j)] == a.units_at_spec(j),
        decreases n - i,
    {
        match b.get(a.name_at(i)) {
            Some(u) => {
                if u != a.units_at(i) {
                    proof {
                        a.lemma_consistent();
                    }
                    return false;
                }
            },
            None => {
                proof {
                    a.lemma_consistent();
                }
                return false;
            },
        }
        i = i + 1;
    }
    proof {
        a.lemma_consistent();
        b.lemma_consistent();
        assert(a@.dom().subset_of(b@.dom())) by {
            assert forall|k: Seq<char>| a@.contains_key(k) implies b@.contains_key(k) by {
                let j = choose|j: int| 0 <= j < a.spec_len() && a.name_at_spec(j) == k;
            }
        }
        vstd::set_lib::lemma_subset_equality(a@.dom(), b@.dom());
        assert forall|k: Seq<char>| a@.contains_key(k) implies a@[k] == b@[k] by {
            let j = choose|j: int| 0 <= j < a.spec_len() && a.name_at_spec(j) == k;
        }
        assert(a@ =~= b@);
    }
    true
}

pub open spec fn manifest_has(s: Seq<SavedDefinitionEntry>, name: Seq<char>) -> bool {
    exists|i: int| 0 <= i < s.len() && s[i].name@ == name
}

pub open spec fn manifests_distinct(s: Seq<SavedDefinitionEntry>) -> bool {
    forall|i: int, j: int| 0 <= i < s.len() && 0 <= j < s.len() && i != j ==> s[i].name@ != s[j].name@
}

pub open spec fn manifest_at(s: Seq<SavedDefinitionEntry>, name: Seq<char>) -> SavedMaterialDefinition {
    s[choose|i: int| 0 <= i < s.len() && s[i].name@ == name].definition
}

/// `d` saves exactly the given material identity and stacking.
pub open spec fn saved_matches(
    d: SavedMaterialDefinition,
    mats: Map<Seq<char>, u64>,
    class: crate::registry::MaterialClass,
    max_stack: u32,
    durability: u32,
) -> bool {
    d.materials@ == mats && d.material_class == class && d.max_stack == max_stack && d.durability == durability
}

proof fn lemma_manifest_at(s: Seq<SavedDefinitionEntry>, i: int)
    requires
        manifests_distinct(s),
        0 <= i < s.len(),
    ensures
        manifest_has(s, s[i].name@),
        manifest_at(s, s[i].name@) == s[i].definition,
{
    let c = choose|c: int| 0 <= c < s.len() && s[c].name@ == s[i].name@;
    assert(c == i);
}

fn find_manifest(list: &Vec<SavedDefinitionEntry>, name: &str) -> (r: Option<usize>)
    ensures
        match r {
            Some(i) => i < list@.len() && list@[i as int].name@ == name@,
            None => !manifest_has(list@, name@),
        },
{
    let mut i: usize = 0;
    while i < list.len()
        invariant
            i <= list@.len(),
            forall|j: int| 0 <= j < i ==> list@[j].name@ != name@,
        decreases list@.len() - i,
    {
        if str_eq(list[i].name.as_str(), name) {
            return Some(i);
        }
        i = i + 1;
    }
    None
}

/// Whether `d` saves exactly the given identity.
fn saved_equals(d: &SavedMaterialDefinition, mats: &MaterialVector, class: crate::registry::MaterialClass, max_stack: u32, durability: u32) -> (r: bool)
    ensures
        r == saved_matches(*d, mats@, class, max_stack, durability),
{
    same_vector(&d.materials, mats) && d.material_class == class && d.max_stack == max_stack && d.durability == durability
}

/// Save the identity of `name`, replacing an outdated record. Returns
/// whether anything changed.
fn upsert_manifest(
    list: &mut Vec<SavedDefinitionEntry>,
    name: &str,
    mats: &MaterialVector,
    class: crate::registry::MaterialClass,
    max_stack: u32,
    durability: u32,
) -> (r: bool)
    requires
        manifests_distinct(old(list)@),
    ensures
        manifests_distinct(final(list)@),
        manifest_has(final(list)@, name@),
        saved_matches(manifest_at(final(list)@, name@), mats@, class, max_stack, durability),
        r == !(manifest_has(old(list)@, name@) && saved_matches(manifest_at(old(list)@, name@), mats@, class, max_stack, durability)),
        forall|n: Seq<char>| n != name@ ==> (#[trigger] manifest_has(final(list)@, n) == manifest_has(old(list)@, n)
            && (manifest_has(old(list)@, n) ==> manifest_at(final(list)@, n) == manifest_at(old(list)@, n))),
{
    let ghost a = list@;
    let entry = SavedDefinitionEntry {
        name: name.to_owned(),
        definition: SavedMaterialDefinition { materials: mats.duplicate(), material_class: class, max_stack, durability },
    };
    let ghost e = entry;
    match find_manifest(list, name) {
        Some(i) => {
            proof {
                lemma_manifest_at(a, i as int);
            }
            if saved_equals(&list[i].definition, mats, class, max_stack, durability) {
                return false;
            }
            list.set(i, entry);
            proof {
                let b = list@;
                assert(b == a.update(i as int, e));
                assert forall|x: int, y: int| 0 <= x < b.len() && 0 <= y < b.len() && x != y implies b[x].name@ != b[y].name@ by {
                    assert(b[x].name@ == a[x].name@);
                    assert(b[y].name@ == a[y].name@);
                }
                lemma_manifest_at(b, i as int);
                assert forall|n: Seq<char>| n != name@ implies (#[trigger] manifest_has(b, n) == manifest_has(a, n)
                    && (manifest_has(a, n) ==> manifest_at(b, n) == manifest_at(a, n))) by {
                    if manifest_has(a, n) {
                        let y = choose|y: int| 0 <= y < a.len() && a[y].name@ == n;
                        assert(b[y] == a[y]);
                        lemma_manifest_at(a, y);
                        lemma_manifest_at(b, y);
                    }
                    if manifest_has(b, n) {
                        let x = choose|x: int| 0 <= x < b.len() && b[x].name@ == n;
                        assert(b[x] == a[x]);
                    }
                }
            }
            true
        },
        None => {
            list.push(entry);
            proof {
                let b = list@;
                assert(b == a.push(e));
                assert forall|x: int, y: int| 0 <= x < b.len() && 0 <= y < b.len() && x != y implies b[x].name@ != b[y].name@ by {
                    if x == a.len() {
                        assert(b[y] == a[y]);
                    } else if y == a.len() {
                        assert(b[x] == a[x]);
                    } else {
                        assert(b[x] == a[x]);
                        assert(b[y] == a[y]);
                    }
                }
                lemma_manifest_at(b, a.len() as int);
                assert forall|n: Seq<char>| n != name@ implies (#[trigger] manifest_has(b, n) == manifest_has(a, n)
                    && (manifest_has(a, n) ==> manifest_at(b, n) == manifest_at(a, n))) by {
                    if manifest_has(a, n) {
                        let y = choose|y: int| 0 <= y < a.len() && a[y].name@ == n;
                        assert(b[y] == a[y]);
                        lemma_manifest_at(a, y);
                        lemma_manifest_at(b, y);
                    }
                    if manifest_has(b, n) {
                        let x = choose|x: int| 0 <= x < b.len() && b[x].name@ == n;
                        assert(x < a.len());
                        assert(b[x] == a[x]);
                    }
                }
            }
            true
        },
    }
}


pub open spec fn item_names_distinct(reg: &Registry) -> bool {
    forall|i: int, j: int|
        0 <= i < reg.items@.len() && 0 <= j < reg.items@.len() && i != j ==> reg.items@[i].name@ != reg.items@[j].name@
}

pub open spec fn block_names_distinct(reg: &Registry) -> bool {
    forall|i: int, j: int|
        0 <= i < reg.blocks@.len() && 0 <= j < reg.blocks@.len() && i != j ==> reg.blocks@[i].name@ != reg.blocks@[j].name@
}

pub open spec fn item_saved(s: Seq<SavedDefinitionEntry>, d: crate::registry::ItemDef) -> bool {
    manifest_has(s, d.name@) && saved_matches(manifest_at(s, d.name@), d.materials@, d.material_class, d.max_stack, d.durability)
}

pub open spec fn block_saved(s: Seq<SavedDefinitionEntry>, d: crate::registry::BlockDef) -> bool {
    manifest_has(s, d.name@) && saved_matches(manifest_at(s, d.name@), d.materials@, d.material_class, 64, 0)
}

/// A loaded item that carries material and has a different name from `n`.
pub open spec fn names_item(reg: &Registry, n: Seq<char>, upto: int) -> bool {
    exists|j: int| 0 <= j < upto && reg.items@[j].name@ == n && reg.items@[j].materials@.dom().len() != 0
}

pub open spec fn names_block(reg: &Registry, n: Seq<char>, upto: int) -> bool {
    exists|j: int| 0 <= j < upto && reg.blocks@[j].name@ == n && reg.blocks@[j].materials@.dom().len() != 0
}

/// The saved identity of `name` is unchanged from `a` to `b`.
pub open spec fn manifest_kept(a: Seq<SavedDefinitionEntry>, b: Seq<SavedDefinitionEntry>, n: Seq<char>) -> bool {
    manifest_has(b, n) == manifest_has(a, n) && (manifest_has(a, n) ==> manifest_at(b, n) == manifest_at(a, n))
}

/// The saved item identity recorded in `s` for `name` differs in materials
/// or class from the loaded definition.
pub open spec fn item_identity_changed(s: Seq<SavedDefinitionEntry>, d: crate::registry::ItemDef) -> bool {
    manifest_has(s, d.name@) && !(manifest_at(s, d.name@).materials@ == d.materials@ && manifest_at(s, d.name@).material_class
        == d.material_class)
}

pub open spec fn block_identity_changed(s: Seq<SavedDefinitionEntry>, d: crate::registry::BlockDef) -> bool {
    manifest_has(s, d.name@) && !(manifest_at(s, d.name@).materials@ == d.materials@ && manifest_at(s, d.name@).material_class
        == d.material_class)
}

pub open spec fn with_manifests(l: MaterialLedger, items: Vec<SavedDefinitionEntry>, blocks: Vec<SavedDefinitionEntry>) -> MaterialLedger {
    MaterialLedger { item_manifests: items, block_manifests: blocks, ..l }
}

impl MaterialLedger {
    /// Save the material identity of every material-bearing item and block.
    /// Returns whether any saved identity was new or different.
    pub fn reconcile_saved_definitions(&mut self, reg: &Registry) -> (r: bool)
        requires
            manifests_distinct(old(self).item_manifests@),
            manifests_distinct(old(self).block_manifests@),
            item_names_distinct(reg),
            block_names_distinct(reg),
        ensures
            manifests_distinct(final(self).item_manifests@),
            manifests_distinct(final(self).block_manifests@),
            *final(self) == with_manifests(*old(self), final(self).item_manifests, final(self).block_manifests),
            forall|i: int| 0 <= i < reg.items@.len() && reg.items@[i].materials@.dom().len() != 0 ==> item_saved(
                final(self).item_manifests@,
                #[trigger] reg.items@[i],
            ),
            forall|i: int| 0 <= i < reg.blocks@.len() && reg.blocks@[i].materials@.dom().len() != 0 ==> block_saved(
                final(self).block_manifests@,
                #[trigger] reg.blocks@[i],
            ),
            forall|n: Seq<char>| !names_item(reg, n, reg.items@.len() as int) ==> #[trigger] manifest_kept(
                old(self).item_manifests@,
                final(self).item_manifests@,
                n,
            ),
            forall|n: Seq<char>| !names_block(reg, n, reg.blocks@.len() as int) ==> #[trigger] manifest_kept(
                old(self).block_manifests@,
                final(self).block_manifests@,
                n,
            ),
            r == ((exists|i: int| 0 <= i < reg.items@.len() && reg.items@[i].materials@.dom().len() != 0 && !item_saved(
                old(self).item_manifests@,
                reg.items@[i],
            )) || (exists|i: int| 0 <= i < reg.blocks@.len() && reg.blocks@[i].materials@.dom().len() != 0 && !block_saved(
                old(self).block_manifests@,
                reg.blocks@[i],
            ))),
    {
        let ghost a = *self;
        let mut changed = false;
        let mut i: usize = 0;
        while i < reg.items.len()
            invariant
                i <= reg.items@.len(),
                item_names_distinct(reg),
                manifests_distinct(self.item_manifests@),
                *self == with_manifests(a, self.item_manifests, a.block_manifests),
                a == *old(self),
                forall|j: int| 0 <= j < i && reg.items@[j].materials@.dom().len() != 0 ==> item_saved(
                    self.item_manifests@,
                    #[trigger] reg.items@[j],
                ),
                forall|n: Seq<char>| !names_item(reg, n, i as int) ==> #[trigger] manifest_kept(a.item_manifests@, self.item_manifests@, n),
                changed == exists|j: int| 0 <= j < i && reg.items@[j].materials@.dom().len() != 0 && !item_saved(
                    a.item_manifests@,
                    reg.items@[j],
                ),
            decreases reg.items@.len() - i,
        {
            let item = &reg.items[i];
            if !item.materials.is_empty() {
                let ghost before = self.item_manifests@;
                proof {
                    assert(!names_item(reg, item.name@, i as int)) by {
                        if names_item(reg, item.name@, i as int) {
                            let j = choose|j: int| 0 <= j < i && reg.items@[j].name@ == item.name@ && reg.items@[j].materials@.dom().len() != 0;
                        }
                    }
                    assert(manifest_kept(a.item_manifests@, before, item.name@));
                }
                let up = upsert_manifest(&mut self.item_manifests, item.name.as_str(), &item.materials, item.material_class, item.max_stack, item.durability);
                proof {
                    assert forall|j: int| 0 <= j < i + 1 && reg.items@[j].materials@.dom().len() != 0 implies item_saved(
                        self.item_manifests@,
                        #[trigger] reg.items@[j],
                    ) by {
                        if j < i {
                            assert(reg.items@[j].name@ != item.name@);
                            assert(item_saved(before, reg.items@[j]));
                            assert(manifest_has(self.item_manifests@, reg.items@[j].name@));
                        } else {
                            assert(reg.items@[j] == *item);
                        }
                    }
                    assert forall|n: Seq<char>| !names_item(reg, n, i + 1) implies #[trigger] manifest_kept(a.item_manifests@, self.item_manifests@, n) by {
                        assert(n != item.name@) by {
                            if n == item.name@ {
                                assert(reg.items@[i as int].name@ == n);
                                assert(names_item(reg, n, i + 1));
                            }
                        }
                        if names_item(reg, n, i as int) {
                            let j = choose|j: int| 0 <= j < i && reg.items@[j].name@ == n && reg.items@[j].materials@.dom().len() != 0;
                            assert(names_item(reg, n, i + 1));
                        }
                        assert(manifest_kept(a.item_manifests@, before, n));
                        assert(manifest_has(self.item_manifests@, n) == manifest_has(before, n));
                    }
                }
                changed = changed || up;
                proof {
                    assert(changed == exists|j: int| 0 <= j < i + 1 && reg.items@[j].materials@.dom().len() != 0 && !item_saved(
                        a.item_manifests@,
                        reg.items@[j],
                    )) by {
                        if up {
                            assert(!item_saved(a.item_manifests@, reg.items@[i as int]));
                        }
                    }
                }
            } else {
                proof {
                    assert forall|n: Seq<char>| !names_item(reg, n, i + 1) implies #[trigger] manifest_kept(a.item_manifests@, self.item_manifests@, n) by {
                        if names_item(reg, n, i as int) {
                            let j = choose|j: int| 0 <= j < i && reg.items@[j].name@ == n && reg.items@[j].materials@.dom().len() != 0;
                            assert(names_item(reg, n, i + 1));
                        }
                    }
                }
            }
            i = i + 1;
        }
        let ghost after_items = *self;
        let mut changed_blocks = false;
        let mut k: usize = 0;
        while k < reg.blocks.len()
            invariant
                k <= reg.blocks@.len(),
                block_names_distinct(reg),
                manifests_distinct(self.block_manifests@),
                *self == with_manifests(a, after_items.item_manifests, self.block_manifests),
                a == *old(self),
                forall|j: int| 0 <= j < k && reg.blocks@[j].materials@.dom().len() != 0 ==> block_saved(
                    self.block_manifests@,
                    #[trigger] reg.blocks@[j],
                ),
                forall|n: Seq<char>| !names_block(reg, n, k as int) ==> #[trigger] manifest_kept(a.block_manifests@, self.block_manifests@, n),
                changed_blocks == exists|j: int| 0 <= j < k && reg.blocks@[j].materials@.dom().len() != 0 && !block_saved(
                    a.block_manifests@,
                    reg.blocks@[j],
                ),
            decreases reg.blocks@.len() - k,
        {
            let block = &reg.blocks[k];
            if !block.materials.is_empty() {
                let ghost before = self.block_manifests@;
                proof {
                    assert(!names_block(reg, block.name@, k as int)) by {
                        if names_block(reg, block.name@, k as int) {
                            let j = choose|j: int| 0 <= j < k && reg.blocks@[j].name@ == block.name@ && reg.blocks@[j].materials@.dom().len() != 0;
                        }
                    }
                    assert(manifest_kept(a.block_manifests@, before, block.name@));
                }
                let up = upsert_manifest(&mut self.block_manifests, block.name.as_str(), &block.materials, block.material_class, 64, 0);
                proof {
                    assert forall|j: int| 0 <= j < k + 1 && reg.blocks@[j].materials@.dom().len() != 0 implies block_saved(
                        self.block_manifests@,
                        #[trigger] reg.blocks@[j],
                    ) by {
                        if j < k {
                            assert(reg.blocks@[j].name@ != block.name@);
                            assert(block_saved(before, reg.blocks@[j]));
                            assert(manifest_has(self.block_manifests@, reg.blocks@[j].name@));
                        } else {
                            assert(reg.blocks@[j] == *block);
                        }
                    }
                    assert forall|n: Seq<char>| !names_block(reg, n, k + 1) implies #[trigger] manifest_kept(a.block_manifests@, self.block_manifests@, n) by {
                        assert(n != block.name@) by {
                            if n == block.name@ {
                                assert(reg.blocks@[k as int].name@ == n);
                                assert(names_block(reg, n, k + 1));
                            }
                        }
                        if names_block(reg, n, k as int) {
                            let j = choose|j: int| 0 <= j < k && reg.blocks@[j].name@ == n && reg.blocks@[j].materials@.dom().len() != 0;
                            assert(names_block(reg, n, k + 1));
                        }
                        assert(manifest_kept(a.block_manifests@, before, n));
                        assert(manifest_has(self.block_manifests@, n) == manifest_has(before, n));
                    }
                }
                changed_blocks = changed_blocks || up;
                proof {
                    assert(changed_blocks == exists|j: int| 0 <= j < k + 1 && reg.blocks@[j].materials@.dom().len() != 0 && !block_saved(
                        a.block_manifests@,
                        reg.blocks@[j],
                    )) by {
                        if up {
                            assert(!block_saved(a.block_manifests@, reg.blocks@[k as int]));
                        }
                    }
                }
            } else {
                proof {
                    assert forall|n: Seq<char>| !names_block(reg, n, k + 1) implies #[trigger] manifest_kept(a.block_manifests@, self.block_manifests@, n) by {
                        if names_block(reg, n, k as int) {
                            let j = choose|j: int| 0 <= j < k && reg.blocks@[j].name@ == n && reg.blocks@[j].materials@.dom().len() != 0;
                            assert(names_block(reg, n, k + 1));
                        }
                    }
                }
            }
            k = k + 1;
        }
        changed || changed_blocks
    }

    /// Refuse content that changes the saved material identity (materials or
    /// material class) of a named item or block: live stacks and voxels
    /// would silently change mass. Definitions with no saved identity pass.
    pub fn validate_saved_definitions(&self, reg: &Registry) -> (r: Result<(), LedgerError>)
        requires
            manifests_distinct(self.item_manifests@),
            manifests_distinct(self.block_manifests@),
        ensures
            r is Err <==> (exists|i: int| 0 <= i < reg.items@.len() && item_identity_changed(self.item_manifests@, #[trigger] reg.items@[i]))
                || (exists|i: int| 0 <= i < reg.blocks@.len() && block_identity_changed(self.block_manifests@, #[trigger] reg.blocks@[i])),
            r matches Err(LedgerError::IdentityChanged { name }) ==> (exists|i: int| 0 <= i < reg.items@.len() && reg.items@[i].name@ == name@
                && item_identity_changed(self.item_manifests@, reg.items@[i]))
                || (exists|i: int| 0 <= i < reg.blocks@.len() && reg.blocks@[i].name@ == name@
                && block_identity_changed(self.block_manifests@, reg.blocks@[i])),
    {
        let mut i: usize = 0;
        while i < reg.items.len()
            invariant
                i <= reg.items@.len(),
                manifests_distinct(self.item_manifests@),
                forall|j: int| 0 <= j < i ==> !item_identity_changed(self.item_manifests@, #[trigger] reg.items@[j]),
            decreases reg.items@.len() - i,
        {
            let item = &reg.items[i];
            if let Some(m) = find_manifest(&self.item_manifests, item.name.as_str()) {
                proof {
                    lemma_manifest_at(self.item_manifests@, m as int);
                }
                let saved = &self.item_manifests[m].definition;
                if !same_vector(&saved.materials, &item.materials) || saved.material_class != item.material_class {
                    assert(item_identity_changed(self.item_manifests@, reg.items@[i as int]));
                    return Err(LedgerError::IdentityChanged { name: item.name.clone() });
                }
            }
            i = i + 1;
        }
        let mut k: usize = 0;
        while k < reg.blocks.len()
            invariant
                k <= reg.blocks@.len(),
                manifests_distinct(self.block_manifests@),
                forall|j: int| 0 <= j < reg.items@.len() ==> !item_identity_changed(self.item_manifests@, #[trigger] reg.items@[j]),
                forall|j: int| 0 <= j < k ==> !block_identity_changed(self.block_manifests@, #[trigger] reg.blocks@[j]),
            decreases reg.blocks@.len() - k,
        {
            let block = &reg.blocks[k];
            if let Some(m) = find_manifest(&self.block_manifests, block.name.as_str()) {
                proof {
                    lemma_manifest_at(self.block_manifests@, m as int);
                }
                let saved = &self.block_manifests[m].definition;
                if !same_vector(&saved.materials, &block.materials) || saved.material_class != block.material_class {
                    assert(block_identity_changed(self.block_manifests@, reg.blocks@[k as int]));
                    return Err(LedgerError::IdentityChanged { name: block.name.clone() });
                }
            }
            k = k + 1;
        }
        Ok(())
    }
}


// ---------------------------------------------------------------------------
// Audit.

/// Fold `f` over `s` from `init`, each step saturating at `u64::MAX`.
pub open spec fn sat_fold<T>(init: int, s: Seq<T>, f: spec_fn(T) -> int) -> int
    decreases s.len(),
{
    if s.len() == 0 {
        init
    } else {
        sat_add(sat_fold(init, s.drop_last(), f), f(s.last()))
    }
}

pub proof fn lemma_fold_bounds<T>(init: int, s: Seq<T>, f: spec_fn(T) -> int)
    requires
        0 <= init <= u64::MAX,
        forall|i: int| 0 <= i < s.len() ==> 0 <= #[trigger] f(s[i]),
    ensures
        0 <= sat_fold(init, s, f) <= u64::MAX,
    decreases s.len(),
{
    if s.len() > 0 {
        lemma_fold_bounds(init, s.drop_last(), f);
        assert(f(s[s.len() - 1]) >= 0);
    }
}

/// Without saturation the fold is the exact sum.
pub proof fn lemma_fold_exact<T>(init: int, s: Seq<T>, f: spec_fn(T) -> int)
    requires
        0 <= init,
        forall|i: int| 0 <= i < s.len() ==> 0 <= #[trigger] f(s[i]),
        init + seq_sum(s, f) <= u64::MAX,
    ensures
        sat_fold(init, s, f) == init + seq_sum(s, f),
    decreases s.len(),
{
    if s.len() > 0 {
        let p = s.drop_last();
        assert forall|i: int| 0 <= i < p.len() implies 0 <= #[trigger] f(p[i]) by {
            assert(p[i] == s[i]);
        }
        assert(f(s[s.len() - 1]) >= 0);
        lemma_sum_nonneg(p, f);
        lemma_fold_exact(init, p, f);
    }
}

pub proof fn lemma_sum_nonneg<T>(s: Seq<T>, f: spec_fn(T) -> int)
    requires
        forall|i: int| 0 <= i < s.len() ==> 0 <= #[trigger] f(s[i]),
    ensures
        0 <= seq_sum(s, f),
    decreases s.len(),
{
    if s.len() > 0 {
        let p = s.drop_last();
        assert forall|i: int| 0 <= i < p.len() implies 0 <= #[trigger] f(p[i]) by {
            assert(p[i] == s[i]);
        }
        lemma_sum_nonneg(p, f);
        assert(f(s[s.len() - 1]) >= 0);
    }
}

/// Two maps without zero amounts that agree on every amount are equal.
pub proof fn lemma_no_zero_ext(a: Map<Seq<char>, u64>, b: Map<Seq<char>, u64>)
    requires
        no_zero(a),
        no_zero(b),
        forall|k: Seq<char>| #[trigger] amt(a, k) == amt(b, k),
    ensures
        a == b,
{
    assert forall|k: Seq<char>| #[trigger] a.contains_key(k) == b.contains_key(k) by {
        assert(amt(a, k) == amt(b, k));
    }
    assert forall|k: Seq<char>| a.contains_key(k) implies a[k] == b[k] by {
        assert(amt(a, k) == amt(b, k));
    }
    assert(a =~= b);
}

/// The audit report: every compartment summed per material, each
/// material's unexplained gap, and the planet's material qualification.
pub struct MaterialAudit {
    pub original: MaterialVector,
    pub unmaterialized: MaterialVector,
    pub underground: MaterialVector,
    /// Inventories, containers, item entities and entity cargo.
    pub circulating: MaterialVector,
    pub placed: MaterialVector,
    /// Scrap, slag, tailings and regional salvage.
    pub secondary: MaterialVector,
    pub consumption_loss: MaterialVector,
    pub external_additions: MaterialVector,
    pub external_sources: Vec<ExternalSource>,
    /// Sources minus compartments, per material that appears anywhere.
    pub unexplained: Vec<(String, i128)>,
    pub critical_site_counts: Vec<(String, usize)>,
    pub bronze_bootstrap_regions: usize,
    pub pessimistic_technology_arcs: u64,
    pub major_continents: usize,
    pub major_continents_with_flux: usize,
    pub treasure_site_counts: Vec<(String, usize)>,
    pub retrogen_status: Vec<(String, String)>,
    pub qualification_failures: Vec<String>,
}

/// The audit's gap for `m`: sources minus every compartment.
pub open spec fn audit_gap(a: MaterialAudit, m: Seq<char>) -> int {
    amt(a.original@, m) + amt(a.external_additions@, m) - (amt(a.unmaterialized@, m) + amt(a.underground@, m) + amt(
        a.circulating@,
        m,
    ) + amt(a.placed@, m) + amt(a.secondary@, m) + amt(a.consumption_loss@, m))
}

/// `m` appears in some audited compartment.
pub open spec fn audit_names(a: MaterialAudit, m: Seq<char>) -> bool {
    a.original@.contains_key(m) || a.unmaterialized@.contains_key(m) || a.underground@.contains_key(m)
        || a.circulating@.contains_key(m) || a.placed@.contains_key(m) || a.secondary@.contains_key(m)
        || a.consumption_loss@.contains_key(m) || a.external_additions@.contains_key(m)
}

/// The audit lists each audited material's gap once.
pub open spec fn gaps_listed(a: MaterialAudit) -> bool {
    let g = a.unexplained@;
    &&& forall|i: int, j: int| 0 <= i < g.len() && 0 <= j < g.len() && i != j ==> g[i].0@ != g[j].0@
    &&& forall|i: int| 0 <= i < g.len() ==> audit_names(a, #[trigger] g[i].0@) && g[i].1 == audit_gap(a, g[i].0@)
    &&& forall|m: Seq<char>| #[trigger] audit_names(a, m) ==> exists|i: int| 0 <= i < g.len() && g[i].0@ == m
}

pub open spec fn spec_is_balanced(a: MaterialAudit) -> bool {
    forall|i: int| 0 <= i < a.unexplained@.len() ==> #[trigger] a.unexplained@[i].1 == 0
}

impl MaterialAudit {
    /// Whether every listed unexplained delta is zero.
    pub fn is_balanced(&self) -> (r: bool)
        ensures
            r == spec_is_balanced(*self),
    {
        let mut i: usize = 0;
        while i < self.unexplained.len()
            invariant
                i <= self.unexplained@.len(),
                forall|j: int| 0 <= j < i ==> #[trigger] self.unexplained@[j].1 == 0,
            decreases self.unexplained@.len() - i,
        {
            if self.unexplained[i].1 != 0 {
                return false;
            }
            i = i + 1;
        }
        true
    }

    /// Whether the world met every qualification target.
    pub fn is_qualified(&self) -> (r: bool)
        ensures
            r == (self.qualification_failures@.len() == 0),
    {
        self.qualification_failures.len() == 0
    }
}

/// The audit's compartment totals are the ledger's, each summed with
/// saturation.
pub open spec fn audit_amounts(l: MaterialLedger, a: MaterialAudit) -> bool {
    &&& forall|m: Seq<char>| #[trigger] amt(a.original@, m) == sat_fold(0, l.deposits@, f_original(m))
    &&& forall|m: Seq<char>| #[trigger] amt(a.unmaterialized@, m) == sat_fold(0, l.deposits@, f_unmaterialized(m))
    &&& forall|m: Seq<char>| #[trigger] amt(a.underground@, m) == sat_fold(0, l.deposits@, f_underground(m))
    &&& forall|m: Seq<char>| #[trigger] amt(a.secondary@, m) == sat_fold(
        sat_add(sat_fold(0, l.deposits@, f_tailings(m)), amt(l.secondary_physical@, m) as int),
        l.salvage@,
        f_pool(m),
    )
    &&& forall|m: Seq<char>| #[trigger] amt(a.circulating@, m) == amt(l.circulating@, m)
    &&& forall|m: Seq<char>| #[trigger] amt(a.placed@, m) == amt(l.placed@, m)
    &&& forall|m: Seq<char>| #[trigger] amt(a.consumption_loss@, m) == sat_add(
        amt(l.explicit_consumption@, m) as int,
        amt(l.explicit_loss@, m) as int,
    )
    &&& a.external_additions@ == l.external_additions@
}

/// No audited total of the ledger reaches past `u64::MAX`.
pub open spec fn audit_fits(l: MaterialLedger) -> bool {
    forall|m: Seq<char>| {
        &&& #[trigger] seq_sum(l.deposits@, f_original(m)) <= u64::MAX
        &&& seq_sum(l.deposits@, f_unmaterialized(m)) <= u64::MAX
        &&& seq_sum(l.deposits@, f_underground(m)) <= u64::MAX
        &&& seq_sum(l.deposits@, f_tailings(m)) + amt(l.secondary_physical@, m) + seq_sum(l.salvage@, f_pool(m)) <= u64::MAX
        &&& amt(l.explicit_consumption@, m) + amt(l.explicit_loss@, m) <= u64::MAX
    }
}

/// When no total saturates, the audit's gap for each material is the
/// ledger's unexplained amount.
pub proof fn lemma_audit_gap_exact(l: MaterialLedger, a: MaterialAudit, m: Seq<char>)
    requires
        audit_amounts(l, a),
        audit_fits(l),
    ensures
        audit_gap(a, m) == spec_unexplained(l, m),
{
    assert(seq_sum(l.deposits@, f_original(m)) <= u64::MAX);
    assert forall|i: int| 0 <= i < l.deposits@.len() implies 0 <= #[trigger] f_original(m)(l.deposits@[i]) by {}
    assert forall|i: int| 0 <= i < l.deposits@.len() implies 0 <= #[trigger] f_unmaterialized(m)(l.deposits@[i]) by {}
    assert forall|i: int| 0 <= i < l.deposits@.len() implies 0 <= #[trigger] f_underground(m)(l.deposits@[i]) by {}
    assert forall|i: int| 0 <= i < l.deposits@.len() implies 0 <= #[trigger] f_tailings(m)(l.deposits@[i]) by {}
    assert forall|i: int| 0 <= i < l.salvage@.len() implies 0 <= #[trigger] f_pool(m)(l.salvage@[i]) by {}
    lemma_fold_exact(0, l.deposits@, f_original(m));
    lemma_fold_exact(0, l.deposits@, f_unmaterialized(m));
    lemma_fold_exact(0, l.deposits@, f_underground(m));
    lemma_sum_nonneg(l.salvage@, f_pool(m));
    lemma_sum_nonneg(l.deposits@, f_tailings(m));
    lemma_fold_exact(0, l.deposits@, f_tailings(m));
    let t = sat_add(sat_fold(0, l.deposits@, f_tailings(m)), amt(l.secondary_physical@, m) as int);
    assert(t == seq_sum(l.deposits@, f_tailings(m)) + amt(l.secondary_physical@, m));
    lemma_fold_exact(t, l.salvage@, f_pool(m));
}

/// The audit reports a balanced ledger exactly when no material has an
/// unexplained gap, provided no audited total saturates.
pub proof fn lemma_audit_balanced_iff(l: MaterialLedger, a: MaterialAudit)
    requires
        audit_amounts(l, a),
        gaps_listed(a),
        audit_fits(l),
    ensures
        spec_is_balanced(a) <==> forall|m: Seq<char>| #[trigger] spec_unexplained(l, m) == 0,
{
    if spec_is_balanced(a) {
        assert forall|m: Seq<char>| #[trigger] spec_unexplained(l, m) == 0 by {
            lemma_audit_gap_exact(l, a, m);
            if audit_names(a, m) {
                let i = choose|i: int| 0 <= i < a.unexplained@.len() && a.unexplained@[i].0@ == m;
                assert(a.unexplained@[i].1 == 0);
            }
        }
    }
    if forall|m: Seq<char>| #[trigger] spec_unexplained(l, m) == 0 {
        assert forall|i: int| 0 <= i < a.unexplained@.len() implies #[trigger] a.unexplained@[i].1 == 0 by {
            let m = a.unexplained@[i].0@;
            lemma_audit_gap_exact(l, a, m);
            assert(spec_unexplained(l, m) == 0);
        }
    }
}


proof fn lemma_add_step(old: Map<Seq<char>, u64>, from: Map<Seq<char>, u64>, m: Seq<char>)
    ensures
        amt(spec_add_vector(old, from, 1), m) == sat_add(amt(old, m) as int, amt(from, m) as int),
{
    if from.contains_key(m) {
        assert(sat_mul(from[m] as int, 1) == from[m]);
    }
}

pub open spec fn f_source(m: Seq<char>) -> spec_fn(ExternalSource) -> int {
    |e: ExternalSource| amt(e.materials@, m) as int
}

/// Material attributed to named external sources, summed with saturation.
pub open spec fn attributed_map(l: MaterialLedger) -> Map<Seq<char>, u64> {
    Map::new(
        |m: Seq<char>| sat_fold(0, l.external_sources@, f_source(m)) != 0,
        |m: Seq<char>| sat_fold(0, l.external_sources@, f_source(m)) as u64,
    )
}

/// Number of deposits whose original material includes `name`.
pub open spec fn count_with(s: Seq<DepositAccount>, name: Seq<char>) -> nat
    decreases s.len(),
{
    if s.len() == 0 {
        0
    } else {
        count_with(s.drop_last(), name) + if s.last().original_recoverable@.contains_key(name) {
            1nat
        } else {
            0nat
        }
    }
}

impl MaterialLedger {
    /// Sum the four deposit compartments over every account.
    fn fold_deposits(&self) -> (r: (MaterialVector, MaterialVector, MaterialVector, MaterialVector))
        ensures
            forall|m: Seq<char>| #[trigger] amt(r.0@, m) == sat_fold(0, self.deposits@, f_original(m)),
            forall|m: Seq<char>| #[trigger] amt(r.1@, m) == sat_fold(0, self.deposits@, f_unmaterialized(m)),
            forall|m: Seq<char>| #[trigger] amt(r.2@, m) == sat_fold(0, self.deposits@, f_underground(m)),
            forall|m: Seq<char>| #[trigger] amt(r.3@, m) == sat_fold(0, self.deposits@, f_tailings(m)),
            no_zero(r.0@),
            no_zero(r.1@),
            no_zero(r.2@),
            no_zero(r.3@),
    {
        let mut o = MaterialVector::new();
        let mut u = MaterialVector::new();
        let mut g = MaterialVector::new();
        let mut t = MaterialVector::new();
        let ghost d = self.deposits@;
        let mut i: usize = 0;
        assert(d.take(0) =~= Seq::<DepositAccount>::empty());
        while i < self.deposits.len()
            invariant
                d == self.deposits@,
                i <= d.len(),
                forall|m: Seq<char>| #[trigger] amt(o@, m) == sat_fold(0, d.take(i as int), f_original(m)),
                forall|m: Seq<char>| #[trigger] amt(u@, m) == sat_fold(0, d.take(i as int), f_unmaterialized(m)),
                forall|m: Seq<char>| #[trigger] amt(g@, m) == sat_fold(0, d.take(i as int), f_underground(m)),
                forall|m: Seq<char>| #[trigger] amt(t@, m) == sat_fold(0, d.take(i as int), f_tailings(m)),
                no_zero(o@),
                no_zero(u@),
                no_zero(g@),
                no_zero(t@),
            decreases d.len() - i,
        {
            let account = &self.deposits[i];
            let ghost (o0, u0, g0, t0) = (o@, u@, g@, t@);
            add_vector(&mut o, &account.original_recoverable, 1);
            add_vector(&mut u, &account.remaining_unmaterialized, 1);
            add_vector(&mut g, &account.materialized_underground, 1);
            add_vector(&mut t, &account.tailings_secondary, 1);
            proof {
                assert(d.take(i + 1).drop_last() =~= d.take(i as int));
                assert(d.take(i + 1).last() == d[i as int]);
                assert forall|m: Seq<char>| #[trigger] amt(o@, m) == sat_fold(0, d.take(i + 1), f_original(m)) by {
                    lemma_add_step(o0, account.original_recoverable@, m);
                }
                assert forall|m: Seq<char>| #[trigger] amt(u@, m) == sat_fold(0, d.take(i + 1), f_unmaterialized(m)) by {
                    lemma_add_step(u0, account.remaining_unmaterialized@, m);
                }
                assert forall|m: Seq<char>| #[trigger] amt(g@, m) == sat_fold(0, d.take(i + 1), f_underground(m)) by {
                    lemma_add_step(g0, account.materialized_underground@, m);
                }
                assert forall|m: Seq<char>| #[trigger] amt(t@, m) == sat_fold(0, d.take(i + 1), f_tailings(m)) by {
                    lemma_add_step(t0, account.tailings_secondary@, m);
                }
            }
            i = i + 1;
        }
        proof {
            assert(d.take(d.len() as int) =~= d);
        }
        (o, u, g, t)
    }

    /// Add every salvage pool into `acc`.
    fn fold_pools(&self, acc: &mut MaterialVector)
        ensures
            forall|m: Seq<char>| #[trigger] amt(final(acc)@, m) == sat_fold(amt(old(acc)@, m) as int, self.salvage@, f_pool(m)),
            no_zero(old(acc)@) ==> no_zero(final(acc)@),
    {
        let ghost start = acc@;
        let ghost p = self.salvage@;
        let mut i: usize = 0;
        assert(p.take(0) =~= Seq::<(SalvageRegion, SalvagePool)>::empty());
        while i < self.salvage.len()
            invariant
                p == self.salvage@,
                i <= p.len(),
                forall|m: Seq<char>| #[trigger] amt(acc@, m) == sat_fold(amt(start, m) as int, p.take(i as int), f_pool(m)),
                no_zero(start) ==> no_zero(acc@),
            decreases p.len() - i,
        {
            let ghost before = acc@;
            add_vector(acc, &self.salvage[i].1.materials, 1);
            proof {
                assert(p.take(i + 1).drop_last() =~= p.take(i as int));
                assert(p.take(i + 1).last() == p[i as int]);
                assert forall|m: Seq<char>| #[trigger] amt(acc@, m) == sat_fold(amt(start, m) as int, p.take(i + 1), f_pool(m)) by {
                    lemma_add_step(before, p[i as int].1.materials@, m);
                }
            }
            i = i + 1;
        }
        proof {
            assert(p.take(p.len() as int) =~= p);
        }
    }

    /// Sum the material attributed to every named external source.
    fn attributed_external(&self) -> (r: MaterialVector)
        ensures
            r@ == attributed_map(*self),
    {
        let mut acc = MaterialVector::new();
        let ghost p = self.external_sources@;
        let mut i: usize = 0;
        assert(p.take(0) =~= Seq::<ExternalSource>::empty());
        while i < self.external_sources.len()
            invariant
                p == self.external_sources@,
                i <= p.len(),
                forall|m: Seq<char>| #[trigger] amt(acc@, m) == sat_fold(0, p.take(i as int), f_source(m)),
                no_zero(acc@),
            decreases p.len() - i,
        {
            let ghost before = acc@;
            add_vector(&mut acc, &self.external_sources[i].materials, 1);
            proof {
                assert(p.take(i + 1).drop_last() =~= p.take(i as int));
                assert(p.take(i + 1).last() == p[i as int]);
                assert forall|m: Seq<char>| #[trigger] amt(acc@, m) == sat_fold(0, p.take(i + 1), f_source(m)) by {
                    lemma_add_step(before, p[i as int].materials@, m);
                }
            }
            i = i + 1;
        }
        proof {
            assert(p.take(p.len() as int) =~= p);
            let target = attributed_map(*self);
            assert forall|m: Seq<char>| #[trigger] amt(acc@, m) == amt(target, m) by {
                assert forall|x: int| 0 <= x < p.len() implies 0 <= #[trigger] f_source(m)(p[x]) by {}
                lemma_fold_bounds(0, p, f_source(m));
            }
            assert forall|m: Seq<char>| target.contains_key(m) implies target[m] != 0 by {
                assert forall|x: int| 0 <= x < p.len() implies 0 <= #[trigger] f_source(m)(p[x]) by {}
                lemma_fold_bounds(0, p, f_source(m));
            }
            lemma_no_zero_ext(acc@, target);
        }
        acc
    }

    /// Number of deposits whose original material includes `name`.
    fn deposits_with(&self, name: &str) -> (r: usize)
        ensures
            r == count_with(self.deposits@, name@),
    {
        let ghost d = self.deposits@;
        let mut n: usize = 0;
        let mut i: usize = 0;
        assert(d.take(0) =~= Seq::<DepositAccount>::empty());
        while i < self.deposits.len()
            invariant
                d == self.deposits@,
                i <= d.len(),
                n == count_with(d.take(i as int), name@),
                n <= i,
            decreases d.len() - i,
        {
            proof {
                assert(d.take(i + 1).drop_last() =~= d.take(i as int));
            }
            if self.deposits[i].original_recoverable.contains_key(name) {
                n = n + 1;
            }
            i = i + 1;
        }
        proof {
            assert(d.take(d.len() as int) =~= d);
        }
        n
    }
}


pub open spec fn has_name_in(list: Seq<String>, n: Seq<char>) -> bool {
    exists|i: int| 0 <= i < list.len() && list[i]@ == n
}

pub open spec fn names_distinct(list: Seq<String>) -> bool {
    forall|i: int, j: int| 0 <= i < list.len() && 0 <= j < list.len() && i != j ==> list[i]@ != list[j]@
}

/// Add every name of `v` missing from `list`.
fn collect_names(list: &mut Vec<String>, v: &MaterialVector)
    requires
        names_distinct(old(list)@),
    ensures
        names_distinct(final(list)@),
        forall|n: Seq<char>| #[trigger] has_name_in(final(list)@, n) == (has_name_in(old(list)@, n) || v@.contains_key(n)),
{
    let ghost start = list@;
    let len = v.len();
    proof {
        v.lemma_consistent();
    }
    let mut i: usize = 0;
    while i < len
        invariant
            len == v.spec_len(),
            v.consistent(),
            i <= len,
            names_distinct(list@),
            forall|n: Seq<char>| #[trigger] has_name_in(list@, n) == (has_name_in(start, n) || in_prefix(*v, i as int, n)),
        decreases len - i,
    {
        let name = v.name_at(i);
        let mut found = false;
        let mut k: usize = 0;
        while k < list.len()
            invariant
                k <= list@.len(),
                found == exists|x: int| 0 <= x < k && list@[x]@ == name@,
            decreases list@.len() - k,
        {
            if str_eq(list[k].as_str(), name) {
                found = true;
            }
            k = k + 1;
        }
        let ghost before = list@;
        if !found {
            list.push(name.to_owned());
            proof {
                assert forall|x: int, y: int| 0 <= x < list@.len() && 0 <= y < list@.len() && x != y implies list@[x]@ != list@[y]@ by {
                    if x == before.len() {
                        assert(list@[y] == before[y]);
                    } else if y == before.len() {
                        assert(list@[x] == before[x]);
                    } else {
                        assert(list@[x] == before[x]);
                        assert(list@[y] == before[y]);
                    }
                }
            }
        }
        proof {
            assert forall|n: Seq<char>| #[trigger] has_name_in(list@, n) == (has_name_in(start, n) || in_prefix(*v, i + 1, n)) by {
                if in_prefix(*v, i + 1, n) && !in_prefix(*v, i as int, n) {
                    let j = choose|j: int| 0 <= j < i + 1 && v.name_at_spec(j) == n;
                    assert(j == i);
                    if found {
                        let x = choose|x: int| 0 <= x < before.len() && before[x]@ == name@;
                        assert(has_name_in(before, n));
                    } else {
                        assert(list@[before.len() as int]@ == n);
                    }
                }
                if in_prefix(*v, i as int, n) {
                    let j = choose|j: int| 0 <= j < i && v.name_at_spec(j) == n;
                    assert(in_prefix(*v, i + 1, n));
                }
                if has_name_in(list@, n) && !has_name_in(before, n) {
                    let x = choose|x: int| 0 <= x < list@.len() && list@[x]@ == n;
                    if x < before.len() {
                        assert(list@[x] == before[x]);
                    }
                    assert(v.name_at_spec(i as int) == n);
                }
                if has_name_in(before, n) {
                    let x = choose|x: int| 0 <= x < before.len() && before[x]@ == n;
                    assert(list@[x] == before[x]);
                }
            }
        }
        i = i + 1;
    }
    proof {
        assert forall|n: Seq<char>| #[trigger] has_name_in(list@, n) == (has_name_in(start, n) || v@.contains_key(n)) by {
            if v@.contains_key(n) {
                let j = choose|j: int| 0 <= j < v.spec_len() && v.name_at_spec(j) == n;
                assert(in_prefix(*v, len as int, n));
            }
            if in_prefix(*v, len as int, n) {
                let j = choose|j: int| 0 <= j < len && v.name_at_spec(j) == n;
                assert(v@.contains_key(v.name_at_spec(j)));
            }
        }
    }
}

pub open spec fn msg_bronze(n: nat) -> Seq<char> {
    "only "@ + spec_decimal(n) + " independent bronze bootstrap regions (need 3)"@
}

pub open spec fn msg_sites(material: Seq<char>, n: nat) -> Seq<char> {
    material + " has "@ + spec_decimal(n) + " independent sites (need 2)"@
}

pub open spec fn msg_flux(flux: nat, major: nat) -> Seq<char> {
    "carbonate flux reaches "@ + spec_decimal(flux) + " of "@ + spec_decimal(major) + " major continents"@
}

pub open spec fn msg_treasure(category: Seq<char>, n: nat) -> Seq<char> {
    "treasure category "@ + category + " has "@ + spec_decimal(n) + " sites (need 2)"@
}

pub open spec fn msg_arcs(n: nat) -> Seq<char> {
    "only "@ + spec_decimal(n) + " pessimistic technology arcs (need "@ + spec_decimal(REQUIRED_TECHNOLOGY_ARCS as nat) + ")"@
}

/// One message per counted category below two sites, in order.
pub open spec fn short_site_msgs(s: Seq<(String, usize)>, treasure: bool) -> Seq<Seq<char>>
    decreases s.len(),
{
    if s.len() == 0 {
        Seq::empty()
    } else {
        short_site_msgs(s.drop_last(), treasure) + if s.last().1 < 2 {
            seq![if treasure { msg_treasure(s.last().0@, s.last().1 as nat) } else { msg_sites(s.last().0@, s.last().1 as nat) }]
        } else {
            Seq::empty()
        }
    }
}

/// Every qualification failure the audit reports, in order.
pub open spec fn spec_failures(
    bronze: nat,
    critical: Seq<(String, usize)>,
    flux: nat,
    major: nat,
    treasure: Seq<(String, usize)>,
    arcs: nat,
) -> Seq<Seq<char>> {
    (if bronze < 3 { seq![msg_bronze(bronze)] } else { Seq::empty() }) + short_site_msgs(critical, false) + (if flux != major {
        seq![msg_flux(flux, major)]
    } else {
        Seq::empty()
    }) + short_site_msgs(treasure, true) + (if arcs < REQUIRED_TECHNOLOGY_ARCS {
        seq![msg_arcs(arcs)]
    } else {
        Seq::empty()
    })
}

pub open spec fn views_of(v: Seq<String>) -> Seq<Seq<char>> {
    v.map_values(|s: String| s@)
}

/// Append one message per category below two sites.
fn push_short_sites(out: &mut Vec<String>, counts: &Vec<(String, usize)>, treasure: bool)
    ensures
        views_of(final(out)@) == views_of(old(out)@) + short_site_msgs(counts@, treasure),
{
    let ghost start = views_of(out@);
    let mut i: usize = 0;
    assert(counts@.take(0) =~= Seq::<(String, usize)>::empty());
    assert(views_of(out@) =~= start + short_site_msgs(counts@.take(0), treasure));
    while i < counts.len()
        invariant
            i <= counts@.len(),
            views_of(out@) == start + short_site_msgs(counts@.take(i as int), treasure),
        decreases counts@.len() - i,
    {
        let ghost prev = views_of(out@);
        proof {
            assert(counts@.take(i + 1).drop_last() =~= counts@.take(i as int));
            assert(counts@.take(i + 1).last() == counts@[i as int]);
        }
        let (name, n) = (&counts[i].0, counts[i].1);
        if n < 2 {
            let mut line = String::new();
            if treasure {
                proof {
                    reveal_strlit("treasure category ");
                    reveal_strlit(" has ");
                    reveal_strlit(" sites (need 2)");
                }
                line.append("treasure category ");
                line.append(name.as_str());
                line.append(" has ");
                push_decimal(&mut line, n as u64);
                line.append(" sites (need 2)");
            } else {
                proof {
                    reveal_strlit(" has ");
                    reveal_strlit(" independent sites (need 2)");
                }
                line.append(name.as_str());
                line.append(" has ");
                push_decimal(&mut line, n as u64);
                line.append(" independent sites (need 2)");
            }
            out.push(line);
            proof {
                assert(views_of(out@) =~= prev.push(line@));
            }
        }
        proof {
            assert(views_of(out@) =~= start + short_site_msgs(counts@.take(i + 1), treasure));
        }
        i = i + 1;
    }
    proof {
        assert(counts@.take(counts@.len() as int) =~= counts@);
    }
}


/// Pessimistic complete technology arcs the original material funds: the
/// scarcest of copper, tin, iron and coal after a 75% recovery.
pub open spec fn spec_arcs(original: Map<Seq<char>, u64>) -> int {
    let copper = (amt(original, "copper"@) as int) * 750 / 1000 / (24 * CANONICAL_INGOT_UNITS as int);
    let tin = (amt(original, "tin"@) as int) * 750 / 1000 / (8 * CANONICAL_INGOT_UNITS as int);
    let iron = (amt(original, "iron"@) as int) * 750 / 1000 / (64 * CANONICAL_INGOT_UNITS as int);
    let coal = (amt(original, "coal"@) as int) * 750 / 1000 / (32 * CANONICAL_INGOT_UNITS as int);
    let a = if copper <= tin { copper } else { tin };
    let b = if a <= iron { a } else { iron };
    if b <= coal { b } else { coal }
}

/// The audited originals of the technology metals can be scaled by 750.
pub open spec fn arcs_fit(l: MaterialLedger) -> bool {
    &&& sat_fold(0, l.deposits@, f_original("copper"@)) * 750 <= u64::MAX
    &&& sat_fold(0, l.deposits@, f_original("tin"@)) * 750 <= u64::MAX
    &&& sat_fold(0, l.deposits@, f_original("iron"@)) * 750 <= u64::MAX
    &&& sat_fold(0, l.deposits@, f_original("coal"@)) * 750 <= u64::MAX
}

pub open spec fn pair_views(v: Seq<(String, usize)>) -> Seq<(Seq<char>, usize)> {
    v.map_values(|p: (String, usize)| (p.0@, p.1))
}

fn copy_counts(v: &Vec<(String, usize)>) -> (r: Vec<(String, usize)>)
    ensures
        pair_views(r@) == pair_views(v@),
{
    let mut out: Vec<(String, usize)> = Vec::new();
    let mut i: usize = 0;
    while i < v.len()
        invariant
            i <= v@.len(),
            out@.len() == i,
            forall|j: int| 0 <= j < i ==> #[trigger] out@[j].0@ == v@[j].0@ && out@[j].1 == v@[j].1,
        decreases v@.len() - i,
    {
        out.push((v[i].0.clone(), v[i].1));
        i = i + 1;
    }
    assert(pair_views(out@) =~= pair_views(v@));
    out
}

/// Amounts of `m`'s original material, scaled to technology arcs.
fn arcs_for(original: &MaterialVector, material: &str, cost: u64) -> (r: u64)
    requires
        cost > 0,
        amt(original@, material@) * 750 <= u64::MAX,
    ensures
        r == (amt(original@, material@) as int) * 750 / 1000 / (cost as int),
{
    original.units(material) * 750 / 1000 / cost
}

impl MaterialLedger {
    /// Audit the ledger: every compartment per material, each material's
    /// unexplained gap (zero when balanced), and the planet's material
    /// qualification.
    #[verifier::rlimit(80)]
    #[verifier::spinoff_prover]
    pub fn audit(&self) -> (a: MaterialAudit)
        requires
            arcs_fit(*self),
        ensures
            audit_amounts(*self, a),
            gaps_listed(a),
            no_zero(a.original@) && no_zero(a.unmaterialized@) && no_zero(a.underground@) && no_zero(a.secondary@)
                && no_zero(a.circulating@) && no_zero(a.placed@) && no_zero(a.consumption_loss@),
            a.critical_site_counts@.len() == 4,
            a.critical_site_counts@[0].0@ == "coal"@ && a.critical_site_counts@[0].1 == count_with(self.deposits@, "coal"@),
            a.critical_site_counts@[1].0@ == "copper"@ && a.critical_site_counts@[1].1 == count_with(self.deposits@, "copper"@),
            a.critical_site_counts@[2].0@ == "iron"@ && a.critical_site_counts@[2].1 == count_with(self.deposits@, "iron"@),
            a.critical_site_counts@[3].0@ == "tin"@ && a.critical_site_counts@[3].1 == count_with(self.deposits@, "tin"@),
            a.bronze_bootstrap_regions == count_with(self.deposits@, "tin"@),
            a.pessimistic_technology_arcs == spec_arcs(a.original@),
            a.major_continents == self.qualification.major_continents,
            a.major_continents_with_flux == self.qualification.major_continents_with_flux,
            pair_views(a.treasure_site_counts@) == pair_views(self.qualification.treasure_site_counts@),
            a.retrogen_status@.len() == self.retrogen@.len(),
            forall|i: int| 0 <= i < self.retrogen@.len() ==> #[trigger] a.retrogen_status@[i].0@ == self.retrogen@[i].resource_key@
                && a.retrogen_status@[i].1@ == self.retrogen@[i].status@,
            views_of(a.qualification_failures@) == spec_failures(
                a.bronze_bootstrap_regions as nat,
                a.critical_site_counts@,
                a.major_continents_with_flux as nat,
                a.major_continents as nat,
                a.treasure_site_counts@,
                a.pessimistic_technology_arcs as nat,
            ),
            ({
                let implicit = spec_drain(self.external_additions@, attributed_map(*self));
                let n = self.external_sources@.len();
                &&& a.external_sources@.len() == if implicit.dom().len() == 0 { n } else { n + 1 }
                &&& forall|i: int| 0 <= i < n ==> #[trigger] a.external_sources@[i].source@ == self.external_sources@[i].source@
                    && a.external_sources@[i].materials@ == self.external_sources@[i].materials@
                &&& implicit.dom().len() != 0 ==> a.external_sources@[n as int].source@ == "legacy/admin reconciliation"@
                    && a.external_sources@[n as int].materials@ == implicit
            }),
    {
        let (original, unmaterialized, underground, tailings) = self.fold_deposits();
        // Secondary: tailings, then loose secondary stock, then every pool.
        let mut secondary = tailings;
        let ghost t0 = secondary@;
        add_vector(&mut secondary, &self.secondary_physical, 1);
        let ghost t1 = secondary@;
        self.fold_pools(&mut secondary);
        let mut circulating = MaterialVector::new();
        add_vector(&mut circulating, &self.circulating, 1);
        let mut placed = MaterialVector::new();
        add_vector(&mut placed, &self.placed, 1);
        let mut consumption_loss = MaterialVector::new();
        let ghost c0 = consumption_loss@;
        add_vector(&mut consumption_loss, &self.explicit_consumption, 1);
        let ghost c1 = consumption_loss@;
        add_vector(&mut consumption_loss, &self.explicit_loss, 1);
        let external_additions = self.external_additions.duplicate();
        proof {
            assert forall|m: Seq<char>| #[trigger] amt(secondary@, m) == sat_fold(
                sat_add(sat_fold(0, self.deposits@, f_tailings(m)), amt(self.secondary_physical@, m) as int),
                self.salvage@,
                f_pool(m),
            ) by {
                lemma_add_step(t0, self.secondary_physical@, m);
            }
            assert forall|m: Seq<char>| #[trigger] amt(circulating@, m) == amt(self.circulating@, m) by {
                lemma_add_step(Map::empty(), self.circulating@, m);
            }
            assert forall|m: Seq<char>| #[trigger] amt(placed@, m) == amt(self.placed@, m) by {
                lemma_add_step(Map::empty(), self.placed@, m);
            }
            assert forall|m: Seq<char>| #[trigger] amt(consumption_loss@, m) == sat_add(
                amt(self.explicit_consumption@, m) as int,
                amt(self.explicit_loss@, m) as int,
            ) by {
                lemma_add_step(c0, self.explicit_consumption@, m);
                lemma_add_step(c1, self.explicit_loss@, m);
            }
        }

        let external_sources = self.audit_sources();
        // Unexplained gap per material.
        let mut names: Vec<String> = Vec::new();
        collect_names(&mut names, &original);
        collect_names(&mut names, &unmaterialized);
        collect_names(&mut names, &underground);
        collect_names(&mut names, &circulating);
        collect_names(&mut names, &placed);
        collect_names(&mut names, &secondary);
        collect_names(&mut names, &consumption_loss);
        collect_names(&mut names, &external_additions);
        let mut unexplained: Vec<(String, i128)> = Vec::new();
        let mut k: usize = 0;
        while k < names.len()
            invariant
                k <= names@.len(),
                unexplained@.len() == k,
                forall|j: int| 0 <= j < k ==> #[trigger] unexplained@[j].0@ == names@[j]@
                    && unexplained@[j].1 == amt(original@, names@[j]@) + amt(external_additions@, names@[j]@) - (
                    amt(unmaterialized@, names@[j]@) + amt(underground@, names@[j]@) + amt(circulating@, names@[j]@)
                        + amt(placed@, names@[j]@) + amt(secondary@, names@[j]@) + amt(consumption_loss@, names@[j]@)),
            decreases names@.len() - k,
        {
            let n = names[k].as_str();
            let source = original.units(n) as i128 + external_additions.units(n) as i128;
            let accounted = unmaterialized.units(n) as i128 + underground.units(n) as i128 + circulating.units(n) as i128
                + placed.units(n) as i128 + secondary.units(n) as i128 + consumption_loss.units(n) as i128;
            let ghost before = unexplained@;
            let name = names[k].clone();
            assert(name@ == names@[k as int]@);
            unexplained.push((name, source - accounted));
            assert(forall|j: int| 0 <= j < k ==> unexplained@[j] == before[j]);
            assert(unexplained@[k as int].0@ == names@[k as int]@);
            k = k + 1;
        }

        // Qualification.
        proof {
            reveal_strlit("coal");
            reveal_strlit("copper");
            reveal_strlit("iron");
            reveal_strlit("tin");
        }
        let coal = self.deposits_with("coal");
        let copper = self.deposits_with("copper");
        let iron = self.deposits_with("iron");
        let tin = self.deposits_with("tin");
        let critical_site_counts = vec![
            ("coal".to_owned(), coal),
            ("copper".to_owned(), copper),
            ("iron".to_owned(), iron),
            ("tin".to_owned(), tin),
        ];
        let bronze = tin;
        let a_copper = arcs_for(&original, "copper", 24 * CANONICAL_INGOT_UNITS);
        let a_tin = arcs_for(&original, "tin", 8 * CANONICAL_INGOT_UNITS);
        let a_iron = arcs_for(&original, "iron", 64 * CANONICAL_INGOT_UNITS);
        let a_coal = arcs_for(&original, "coal", 32 * CANONICAL_INGOT_UNITS);
        let m1 = if a_copper <= a_tin { a_copper } else { a_tin };
        let m2 = if m1 <= a_iron { m1 } else { a_iron };
        let arcs = if m2 <= a_coal { m2 } else { a_coal };
        let treasure_site_counts = copy_counts(&self.qualification.treasure_site_counts);
        let retrogen_status = self.retrogen_status();
        let mut failures: Vec<String> = Vec::new();
        proof {
            assert(views_of(failures@) =~= Seq::<Seq<char>>::empty());
        }
        if bronze < 3 {
            proof {
                reveal_strlit("only ");
                reveal_strlit(" independent bronze bootstrap regions (need 3)");
            }
            let mut line = "only ".to_owned();
            push_decimal(&mut line, bronze as u64);
            line.append(" independent bronze bootstrap regions (need 3)");
            assert(line@ == msg_bronze(bronze as nat));
            failures.push(line);
            assert(views_of(failures@) =~= seq![msg_bronze(bronze as nat)]);
        }
        let ghost f1 = views_of(failures@);
        push_short_sites(&mut failures, &critical_site_counts, false);
        let flux = self.qualification.major_continents_with_flux;
        let major = self.qualification.major_continents;
        let ghost f2 = views_of(failures@);
        if flux != major {
            proof {
                reveal_strlit("carbonate flux reaches ");
                reveal_strlit(" of ");
                reveal_strlit(" major continents");
            }
            let mut line = "carbonate flux reaches ".to_owned();
            push_decimal(&mut line, flux as u64);
            line.append(" of ");
            push_decimal(&mut line, major as u64);
            line.append(" major continents");
            assert(line@ == msg_flux(flux as nat, major as nat));
            failures.push(line);
            assert(views_of(failures@) =~= f2.push(msg_flux(flux as nat, major as nat)));
        }
        let ghost f3 = views_of(failures@);
        push_short_sites(&mut failures, &treasure_site_counts, true);
        let ghost f4 = views_of(failures@);
        if arcs < REQUIRED_TECHNOLOGY_ARCS {
            proof {
                reveal_strlit("only ");
                reveal_strlit(" pessimistic technology arcs (need ");
                reveal_strlit(")");
            }
            let mut line = "only ".to_owned();
            push_decimal(&mut line, arcs);
            line.append(" pessimistic technology arcs (need ");
            push_decimal(&mut line, REQUIRED_TECHNOLOGY_ARCS);
            line.append(")");
            assert(line@ == msg_arcs(arcs as nat));
            failures.push(line);
            assert(views_of(failures@) =~= f4.push(msg_arcs(arcs as nat)));
        }
        let ghost f5 = views_of(failures@);
        let a = MaterialAudit {
            original,
            unmaterialized,
            underground,
            circulating,
            placed,
            secondary,
            consumption_loss,
            external_additions,
            external_sources,
            unexplained,
            critical_site_counts,
            bronze_bootstrap_regions: bronze,
            pessimistic_technology_arcs: arcs,
            major_continents: major,
            major_continents_with_flux: flux,
            treasure_site_counts,
            retrogen_status,
            qualification_failures: failures,
        };
        proof {
            assert(pair_views(a.treasure_site_counts@) == pair_views(self.qualification.treasure_site_counts@));
            assert(f1 =~= (if a.bronze_bootstrap_regions < 3 { seq![msg_bronze(a.bronze_bootstrap_regions as nat)] } else { Seq::<Seq<char>>::empty() }));
            assert(f5 =~= f1 + short_site_msgs(a.critical_site_counts@, false) + (if a.major_continents_with_flux != a.major_continents {
                seq![msg_flux(a.major_continents_with_flux as nat, a.major_continents as nat)]
            } else {
                Seq::<Seq<char>>::empty()
            }) + short_site_msgs(a.treasure_site_counts@, true) + (if a.pessimistic_technology_arcs < REQUIRED_TECHNOLOGY_ARCS {
                seq![msg_arcs(a.pessimistic_technology_arcs as nat)]
            } else {
                Seq::<Seq<char>>::empty()
            }));
            assert(views_of(a.qualification_failures@) =~= spec_failures(
                a.bronze_bootstrap_regions as nat,
                a.critical_site_counts@,
                a.major_continents_with_flux as nat,
                a.major_continents as nat,
                a.treasure_site_counts@,
                a.pessimistic_technology_arcs as nat,
            ));
            assert forall|m: Seq<char>| #[trigger] audit_names(a, m) implies exists|i: int| 0 <= i < a.unexplained@.len() && a.unexplained@[i].0@ == m by {
                assert(has_name_in(names@, m));
                let i = choose|i: int| 0 <= i < names@.len() && names@[i]@ == m;
                assert(a.unexplained@[i].0@ == m);
            }
            assert forall|i: int| 0 <= i < a.unexplained@.len() implies audit_names(a, #[trigger] a.unexplained@[i].0@) && a.unexplained@[i].1 == audit_gap(a, a.unexplained@[i].0@) by {
                assert(has_name_in(names@, names@[i]@));
            }
        }
        a
    }
}


impl MaterialLedger {
    /// Each retrogeneration record's resource and status.
    fn retrogen_status(&self) -> (r: Vec<(String, String)>)
        ensures
            r@.len() == self.retrogen@.len(),
            forall|i: int| 0 <= i < self.retrogen@.len() ==> #[trigger] r@[i].0@ == self.retrogen@[i].resource_key@
                && r@[i].1@ == self.retrogen@[i].status@,
    {
        let mut retrogen_status: Vec<(String, String)> = Vec::new();
        let mut r: usize = 0;
        while r < self.retrogen.len()
            invariant
                r <= self.retrogen@.len(),
                retrogen_status@.len() == r,
                forall|j: int| 0 <= j < r ==> #[trigger] retrogen_status@[j].0@ == self.retrogen@[j].resource_key@
                    && retrogen_status@[j].1@ == self.retrogen@[j].status@,
            decreases self.retrogen@.len() - r,
        {
            let ghost before = retrogen_status@;
            let key = self.retrogen[r].resource_key.clone();
            let status = self.retrogen[r].status.clone();
            assert(key@ == self.retrogen@[r as int].resource_key@);
            assert(status@ == self.retrogen@[r as int].status@);
            retrogen_status.push((key, status));
            assert(forall|j: int| 0 <= j < r ==> retrogen_status@[j] == before[j]);
            r = r + 1;
        }
        retrogen_status
    }

    /// The named external sources, plus any external addition that no
    /// source accounts for, named as a legacy reconciliation.
    fn audit_sources(&self) -> (external_sources: Vec<ExternalSource>)
        ensures
            ({
                let implicit = spec_drain(self.external_additions@, attributed_map(*self));
                let n = self.external_sources@.len();
                &&& external_sources@.len() == if implicit.dom().len() == 0 { n } else { n + 1 }
                &&& forall|i: int| 0 <= i < n ==> #[trigger] external_sources@[i].source@ == self.external_sources@[i].source@
                    && external_sources@[i].materials@ == self.external_sources@[i].materials@
                &&& implicit.dom().len() != 0 ==> external_sources@[n as int].source@ == "legacy/admin reconciliation"@
                    && external_sources@[n as int].materials@ == implicit
            }),
    {
        let mut external_sources: Vec<ExternalSource> = Vec::new();
        let mut i: usize = 0;
        while i < self.external_sources.len()
            invariant
                i <= self.external_sources@.len(),
                external_sources@.len() == i,
                forall|j: int| 0 <= j < i ==> #[trigger] external_sources@[j].source@ == self.external_sources@[j].source@
                    && external_sources@[j].materials@ == self.external_sources@[j].materials@,
            decreases self.external_sources@.len() - i,
        {
            let e = &self.external_sources[i];
            external_sources.push(ExternalSource { source: e.source.clone(), materials: e.materials.duplicate() });
            i = i + 1;
        }
        let attributed = self.attributed_external();
        let mut implicit = self.external_additions.duplicate();
        let mut scratch = MaterialVector::new();
        proof {
            assert forall|k: Seq<char>| #[trigger] attributed@.contains_key(k) implies amt(scratch@, k) + deficit(implicit@, attributed@, k) <= u64::MAX by {}
        }
        subtract_or_external(&mut implicit, &attributed, &mut scratch);
        let ghost copied = external_sources@;
        let ghost implicit_view = implicit@;
        if !implicit.is_empty() {
            proof {
                reveal_strlit("legacy/admin reconciliation");
            }
            external_sources.push(ExternalSource { source: "legacy/admin reconciliation".to_owned(), materials: implicit });
            assert(forall|j: int| 0 <= j < copied.len() ==> external_sources@[j] == copied[j]);
        }

        proof {
            assert(implicit_view == spec_drain(self.external_additions@, attributed_map(*self)));
        }
        external_sources
    }
}


// ---------------------------------------------------------------------------
// Journal framing: `WMD1`, then per record a little-endian 32-bit payload
// length, the payload, and the payload's 64-bit FNV-1a checksum.

pub const DELTA_MAGIC: [u8; 4] = [87, 77, 68, 49];
/// Largest payload a frame may announce.
pub const MAX_FRAME_PAYLOAD: usize = 1048576;
pub const FNV64_OFFSET: u64 = 0xcbf29ce484222325;
pub const FNV64_PRIME: u64 = 0x100000001b3;

/// FNV-1a over `bytes`.
pub open spec fn spec_checksum(bytes: Seq<u8>) -> u64
    decreases bytes.len(),
{
    if bytes.len() == 0 {
        FNV64_OFFSET
    } else {
        ((spec_checksum(bytes.drop_last()) ^ (bytes.last() as u64)) as u64).wrapping_mul(FNV64_PRIME)
    }
}

/// FNV-1a checksum of a journal payload.
pub fn delta_checksum(bytes: &[u8]) -> (r: u64)
    ensures
        r == spec_checksum(bytes@),
{
    let mut hash: u64 = FNV64_OFFSET;
    let mut i: usize = 0;
    while i < bytes.len()
        invariant
            i <= bytes@.len(),
            hash == spec_checksum(bytes@.take(i as int)),
        decreases bytes@.len() - i,
    {
        proof {
            assert(bytes@.take(i + 1).drop_last() =~= bytes@.take(i as int));
        }
        hash = (hash ^ (bytes[i] as u64)).wrapping_mul(FNV64_PRIME);
        i = i + 1;
    }
    proof {
        assert(bytes@.take(bytes@.len() as int) =~= bytes@);
    }
    hash
}

/// Little-endian bytes of the low `n` bytes of `v`.
pub open spec fn spec_le(v: nat, n: nat) -> Seq<u8>
    decreases n,
{
    if n == 0 {
        Seq::empty()
    } else {
        seq![(v % 256) as u8] + spec_le(v / 256, (n - 1) as nat)
    }
}

/// The value of little-endian bytes.
pub open spec fn spec_le_value(b: Seq<u8>) -> nat
    decreases b.len(),
{
    if b.len() == 0 {
        0
    } else {
        b[0] as nat + 256 * spec_le_value(b.subrange(1, b.len() as int))
    }
}

fn push_le(out: &mut Vec<u8>, v: u64, n: usize)
    requires
        n <= 8,
    ensures
        final(out)@ == old(out)@ + spec_le(v as nat, n as nat),
    decreases n,
{
    if n == 0 {
        assert(spec_le(v as nat, 0) =~= Seq::<u8>::empty());
        assert(out@ =~= old(out)@ + Seq::<u8>::empty());
        return;
    }
    out.push((v % 256) as u8);
    let ghost mid = out@;
    push_le(out, v / 256, n - 1);
    assert(out@ =~= old(out)@ + spec_le(v as nat, n as nat));
}

/// The frame that journals `payload`.
pub open spec fn spec_frame(payload: Seq<u8>) -> Seq<u8> {
    spec_le(payload.len(), 4) + payload + spec_le(spec_checksum(payload) as nat, 8)
}

/// Frame one journal payload; a payload whose length needs more than 32
/// bits is refused.
pub fn encode_delta_frame(payload: &[u8]) -> (r: Result<Vec<u8>, LedgerError>)
    ensures
        r is Err <==> payload@.len() > u32::MAX,
        r matches Ok(f) ==> f@ == spec_frame(payload@),
{
    if payload.len() > u32::MAX as usize {
        return Err(LedgerError::RecordTooLarge);
    }
    let mut frame: Vec<u8> = Vec::new();
    push_le(&mut frame, payload.len() as u64, 4);
    let mut i: usize = 0;
    let ghost head = frame@;
    while i < payload.len()
        invariant
            i <= payload@.len(),
            frame@ == head + payload@.take(i as int),
        decreases payload@.len() - i,
    {
        frame.push(payload[i]);
        i = i + 1;
        assert(frame@ =~= head + payload@.take(i as int));
    }
    assert(payload@.take(payload@.len() as int) =~= payload@);
    let sum = delta_checksum(payload);
    push_le(&mut frame, sum, 8);
    assert(frame@ =~= spec_frame(payload@));
    Ok(frame)
}


fn checksum_of_range(bytes: &[u8], start: usize, end: usize) -> (r: u64)
    requires
        start <= end <= bytes@.len(),
    ensures
        r == spec_checksum(bytes@.subrange(start as int, end as int)),
{
    let ghost w = bytes@.subrange(start as int, end as int);
    let mut hash: u64 = FNV64_OFFSET;
    let mut i: usize = start;
    assert(w.take(0) =~= Seq::<u8>::empty());
    while i < end
        invariant
            start <= i <= end,
            end <= bytes@.len(),
            w == bytes@.subrange(start as int, end as int),
            hash == spec_checksum(w.take(i - start)),
        decreases end - i,
    {
        proof {
            assert(w.take(i - start + 1).drop_last() =~= w.take(i - start));
            assert(w.take(i - start + 1).last() == bytes@[i as int]);
        }
        hash = (hash ^ (bytes[i] as u64)).wrapping_mul(FNV64_PRIME);
        i = i + 1;
    }
    proof {
        assert(w.take(end - start) =~= w);
    }
    hash
}

pub open spec fn pow256(k: nat) -> nat
    decreases k,
{
    if k == 0 {
        1
    } else {
        256 * pow256((k - 1) as nat)
    }
}

proof fn lemma_le_value_bound(b: Seq<u8>)
    ensures
        spec_le_value(b) < pow256(b.len()),
    decreases b.len(),
{
    if b.len() > 0 {
        let t = b.subrange(1, b.len() as int);
        lemma_le_value_bound(t);
        let v = spec_le_value(t);
        let p = pow256(t.len());
        assert(b[0] as nat + 256 * v < 256 * p) by (nonlinear_arith)
            requires
                v < p,
                b[0] < 256,
        {}
    }
}

/// The value of `n <= 8` little-endian bytes at `offset`.
fn read_le(bytes: &[u8], offset: usize, n: usize) -> (r: u64)
    requires
        n <= 8,
        offset + n <= bytes@.len(),
    ensures
        r == spec_le_value(bytes@.subrange(offset as int, offset + n)),
{
    let mut acc: u64 = 0;
    let mut k: usize = 0;
    let total = bytes.len();
    let end = offset + n;
    while k < n
        invariant
            k <= n,
            n <= 8,
            end == offset + n,
            end <= bytes@.len(),
            acc == spec_le_value(bytes@.subrange(offset + n - k, offset + n)),
        decreases n - k,
    {
        let j = end - k - 1;
        let ghost suffix = bytes@.subrange(j + 1, offset + n);
        let ghost whole = bytes@.subrange(j as int, offset + n);
        proof {
            assert(whole.subrange(1, whole.len() as int) =~= suffix);
            assert(whole[0] == bytes@[j as int]);
            lemma_le_value_bound(suffix);
            assert(pow256(suffix.len()) <= pow256(7)) by {
                lemma_pow256_mono(suffix.len(), 7);
            }
            assert(pow256(7) == 72057594037927936nat) by {
                reveal_with_fuel(pow256, 8);
            }
            assert(acc * 256 + 255 <= u64::MAX) by (nonlinear_arith)
                requires
                    acc < 72057594037927936nat,
            {}
        }
        acc = acc * 256 + bytes[j] as u64;
        k = k + 1;
    }
    acc
}

proof fn lemma_pow256_mono(a: nat, b: nat)
    requires
        a <= b,
    ensures
        pow256(a) <= pow256(b),
    decreases b,
{
    if a < b {
        lemma_pow256_mono(a, (b - 1) as nat);
        assert(pow256((b - 1) as nat) >= 1) by {
            lemma_pow256_pos((b - 1) as nat);
        }
    }
}

proof fn lemma_pow256_pos(a: nat)
    ensures
        pow256(a) >= 1,
    decreases a,
{
    if a > 0 {
        lemma_pow256_pos((a - 1) as nat);
    }
}

/// Frames decoded from `off` on: each frame's payload range, where the
/// durable prefix ends, and whether the whole tail decoded.
pub open spec fn spec_decode(b: Seq<u8>, off: int) -> (Seq<(int, int)>, int, bool)
    decreases b.len() - off,
{
    if off < 0 || off >= b.len() {
        (Seq::empty(), off, true)
    } else if b.len() - off < 4 {
        (Seq::empty(), off, false)
    } else {
        let len = spec_le_value(b.subrange(off, off + 4)) as int;
        if len > MAX_FRAME_PAYLOAD || b.len() - off < 4 + len + 8 {
            (Seq::empty(), off, false)
        } else {
            let ps = off + 4;
            let pe = ps + len;
            if spec_checksum(b.subrange(ps, pe)) as nat != spec_le_value(b.subrange(pe, pe + 8)) {
                (Seq::empty(), off, false)
            } else {
                let rest = spec_decode(b, pe + 8);
                (seq![(ps, pe)] + rest.0, rest.1, rest.2)
            }
        }
    }
}

pub open spec fn has_magic(b: Seq<u8>) -> bool {
    b.len() >= 4 && b[0] == DELTA_MAGIC[0] && b[1] == DELTA_MAGIC[1] && b[2] == DELTA_MAGIC[2] && b[3]
        == DELTA_MAGIC[3]
}

pub open spec fn int_pairs(v: Seq<(usize, usize)>) -> Seq<(int, int)> {
    v.map_values(|p: (usize, usize)| (p.0 as int, p.1 as int))
}

/// Decode the frames of a journal whose checksums hold: each payload's
/// byte range, the end of the durable prefix, and whether the tail was
/// complete. A journal without its header decodes to nothing.
#[verifier::rlimit(40)]
pub fn decode_delta_frames(bytes: &[u8]) -> (r: (Vec<(usize, usize)>, usize, bool))
    ensures
        !has_magic(bytes@) ==> r.0@.len() == 0 && r.1 == 0 && !r.2,
        has_magic(bytes@) ==> int_pairs(r.0@) == spec_decode(bytes@, 4).0 && r.1 == spec_decode(bytes@, 4).1 && r.2 == spec_decode(bytes@, 4).2,
{
    let n = bytes.len();
    if !(n >= 4 && bytes[0] == DELTA_MAGIC[0] && bytes[1] == DELTA_MAGIC[1] && bytes[2] == DELTA_MAGIC[2]
        && bytes[3] == DELTA_MAGIC[3]) {
        return (Vec::new(), 0, false);
    }
    let ghost total = spec_decode(bytes@, 4);
    let mut frames: Vec<(usize, usize)> = Vec::new();
    let mut offset: usize = 4;
    assert(int_pairs(frames@) + spec_decode(bytes@, 4).0 =~= total.0);
    loop
        invariant
            n == bytes@.len(),
            has_magic(bytes@),
            4 <= offset <= n,
            total == spec_decode(bytes@, 4),
            int_pairs(frames@) + spec_decode(bytes@, offset as int).0 == total.0,
            spec_decode(bytes@, offset as int).1 == total.1,
            spec_decode(bytes@, offset as int).2 == total.2,
        decreases n - offset,
    {
        if offset >= n {
            assert(int_pairs(frames@) =~= total.0);
            return (frames, offset, true);
        }
        if n - offset < 4 {
            assert(int_pairs(frames@) =~= total.0);
            return (frames, offset, false);
        }
        let length = read_le(bytes, offset, 4);
        if length > MAX_FRAME_PAYLOAD as u64 || n - offset < 4 + length as usize + 8 {
            assert(int_pairs(frames@) =~= total.0);
            return (frames, offset, false);
        }
        let payload_start = offset + 4;
        let payload_end = payload_start + length as usize;
        let checksum = read_le(bytes, payload_end, 8);
        if checksum_of_range(bytes, payload_start, payload_end) != checksum {
            assert(int_pairs(frames@) =~= total.0);
            return (frames, offset, false);
        }
        let ghost before = int_pairs(frames@);
        let ghost d = spec_decode(bytes@, offset as int);
        let ghost next = spec_decode(bytes@, payload_end + 8);
        proof {
            assert(d.0 == seq![(payload_start as int, payload_end as int)] + next.0);
        }
        frames.push((payload_start, payload_end));
        offset = payload_end + 8;
        proof {
            assert(int_pairs(frames@) =~= before.push((payload_start as int, payload_end as int)));
            assert(int_pairs(frames@) + next.0 =~= before + d.0);
        }
    }
}


// ---------------------------------------------------------------------------
// Deterministic ids for mod resource deposits.

pub open spec fn rotl13(x: u32) -> u32 {
    ((x << 13u32) | (x >> 19u32)) as u32
}

/// FNV-1a over `bytes` from a seed mixed with the site id.
pub open spec fn spec_resource_hash(bytes: Seq<u8>, site_id: u32) -> u32
    decreases bytes.len(),
{
    if bytes.len() == 0 {
        (0x811c9dc5u32 ^ rotl13(site_id)) as u32
    } else {
        ((spec_resource_hash(bytes.drop_last(), site_id) ^ (bytes.last() as u32)) as u32).wrapping_mul(0x01000193u32)
    }
}

/// A stable deposit id for a mod resource at an atlas site; the high bit
/// keeps it apart from atlas deposit ids.
pub fn stable_resource_id(resource_key: &str, site_id: u32) -> (r: u32)
    ensures
        r == (spec_resource_hash(resource_key.spec_bytes(), site_id) | 0x80000000u32),
{
    let bytes = resource_key.as_bytes();
    let mut hash: u32 = 0x811c9dc5u32 ^ ((site_id << 13u32) | (site_id >> 19u32));
    let mut i: usize = 0;
    assert(bytes@.take(0) =~= Seq::<u8>::empty());
    while i < bytes.len()
        invariant
            i <= bytes@.len(),
            bytes@ == resource_key.spec_bytes(),
            hash == spec_resource_hash(bytes@.take(i as int), site_id),
        decreases bytes@.len() - i,
    {
        proof {
            assert(bytes@.take(i + 1).drop_last() =~= bytes@.take(i as int));
        }
        hash = (hash ^ (bytes[i] as u32)).wrapping_mul(0x01000193u32);
        i = i + 1;
    }
    proof {
        assert(bytes@.take(bytes@.len() as int) =~= bytes@);
    }
    hash | 0x80000000u32
}


// ---------------------------------------------------------------------------
// Replaying the journal.

/// Whether naming every shortfall of `v` against `s` keeps `ext` in range.
fn shortfall_ok(ext: &MaterialVector, v: &MaterialVector, s: &MaterialVector) -> (r: bool)
    ensures
        r == shortfall_fits(ext@, v@, s@),
{
    let n = s.len();
    let mut i: usize = 0;
    while i < n
        invariant
            n == s.spec_len(),
            s.consistent(),
            i <= n,
            forall|j: int| 0 <= j < i ==> amt(ext@, #[trigger] s.name_at_spec(j)) + deficit(v@, s@, s.name_at_spec(j)) <= u64::MAX,
        decreases n - i,
    {
        let name = s.name_at(i);
        let need = s.units_at(i);
        let have = v.units(name);
        proof {
            s.lemma_consistent();
            assert(s@.contains_key(s.name_at_spec(i as int)));
        }
        if have < need {
            if ext.units(name) > u64::MAX - (need - have) {
                return false;
            }
        }
        i = i + 1;
    }
    proof {
        s.lemma_consistent();
        assert forall|k: Seq<char>| #[trigger] s@.contains_key(k) implies amt(ext@, k) + deficit(v@, s@, k) <= u64::MAX by {
            let j = choose|j: int| 0 <= j < s.spec_len() && s.name_at_spec(j) == k;
        }
    }
    true
}

/// What to do with a pending journal record found at load.
pub enum PendingRepair {
    /// No pending record; the log is whole.
    Nothing,
    /// The pending record is already in the log; only remove it.
    Discard,
    /// Truncate the log to its durable prefix, append the pending record,
    /// then remove it.
    Append,
}

pub open spec fn spec_pending_repair(last_delta_seq: u64, logged: Seq<u64>, complete: bool, pending: Option<u64>) -> Result<PendingRepair, ()> {
    match pending {
        None => if complete { Ok(PendingRepair::Nothing) } else { Err(()) },
        Some(p) => {
            if !complete || !logged.contains(p) {
                let last = if logged.len() == 0 { last_delta_seq } else { logged.last() };
                let expected = if last == u64::MAX { u64::MAX } else { (last + 1) as u64 };
                if p != expected { Err(()) } else { Ok(PendingRepair::Append) }
            } else {
                Ok(PendingRepair::Discard)
            }
        },
    }
}

impl MaterialLedger {
    /// Whether applying `action` keeps every counter in range.
    pub fn fits_delta(&self, action: &MaterialDeltaAction) -> (r: bool)
        requires
            ledger_wf(*self),
        ensures
            r == delta_fits(*self, *action),
    {
        match action {
            MaterialDeltaAction::Operation(op) => {
                if op.id <= self.last_applied_operation {
                    return true;
                }
                match op.kind {
                    MaterialOperationKind::BreakPlaced => match find_placed(&self.placed_positions, op.pos) {
                        Some(i) => {
                            proof {
                                lemma_placed_at(self.placed_positions@, i as int);
                            }
                            shortfall_ok(&self.external_additions, &self.placed, &self.placed_positions[i].materials)
                        },
                        None => shortfall_ok(&self.external_additions, &self.placed, &op.materials),
                    },
                    MaterialOperationKind::Place => shortfall_ok(&self.external_additions, &self.circulating, &op.materials),
                    _ => true,
                }
            },
            MaterialDeltaAction::RecipeLoss(v) => shortfall_ok(&self.external_additions, &self.circulating, v),
            MaterialDeltaAction::Consumption(v) => shortfall_ok(&self.external_additions, &self.circulating, v),
            MaterialDeltaAction::AdminDeletion(v) => shortfall_ok(&self.external_additions, &self.circulating, v),
            MaterialDeltaAction::SecondaryOutput(v) => shortfall_ok(&self.external_additions, &self.circulating, v),
            MaterialDeltaAction::SecondaryRecovery(v) => shortfall_ok(&self.external_additions, &self.secondary_physical, v),
            MaterialDeltaAction::Bury { materials, from_secondary, .. } => {
                if *from_secondary {
                    shortfall_ok(&self.external_additions, &self.secondary_physical, materials)
                } else {
                    shortfall_ok(&self.external_additions, &self.circulating, materials)
                }
            },
            MaterialDeltaAction::Recover { region, material, processed, recovered } => {
                let available = match find_pool(&self.salvage, *region) {
                    Some(i) => {
                        proof {
                            lemma_pool_view_at(self.salvage@, i as int);
                        }
                        self.salvage[i].1.materials.units(material.as_str())
                    },
                    None => {
                        return true;
                    },
                };
                if available < *processed {
                    return true;
                }
                *recovered <= *processed && self.circulating.units(material.as_str()) <= u64::MAX - *recovered
                    && self.explicit_loss.units(material.as_str()) <= u64::MAX - (*processed - *recovered)
            },
            MaterialDeltaAction::External { .. } => true,
        }
    }

    /// Replay one durable journal record: records at or before the ledger's
    /// position are skipped (`Ok(false)`), a record that skips a position is
    /// refused, and the next record is applied (`Ok(true)`).
    pub fn replay_step(&mut self, record: &MaterialDelta) -> (r: Result<bool, LedgerError>)
        requires
            ledger_wf(*old(self)),
            record.seq == next_seq(*old(self)) && record.seq > old(self).last_delta_seq ==> delta_fits(*old(self), record.action),
        ensures
            ledger_wf(*final(self)),
            record.seq <= old(self).last_delta_seq ==> (r matches Ok(false)) && *final(self) == *old(self),
            record.seq > old(self).last_delta_seq && record.seq != next_seq(*old(self)) ==> (r matches Err(LedgerError::SequenceGap)) && *final(self) == *old(self),
            r matches Ok(true) ==> record.seq == next_seq(*old(self)) && final(self).last_delta_seq == record.seq
                && spec_delta_applied(*old(self), with_seq(*final(self), old(self).last_delta_seq), record.action),
            record.seq > old(self).last_delta_seq && record.seq == next_seq(*old(self)) ==> (r is Err <==> delta_refused(*old(self), record.action)),
            r matches Ok(true) && delta_no_saturation(*old(self), record.action) ==> forall|m: Seq<char>|
                #[trigger] spec_unexplained(*final(self), m) == spec_unexplained(*old(self), m),
    {
        if record.seq <= self.last_delta_seq {
            return Ok(false);
        }
        if record.seq != self.last_delta_seq.saturating_add(1) {
            return Err(LedgerError::SequenceGap);
        }
        match self.apply_committed(record) {
            Ok(()) => Ok(true),
            Err(e) => Err(e),
        }
    }

    /// Decide how a pending record repairs the journal at load: `logged`
    /// holds the sequence numbers of the durable frames, `complete` whether
    /// the log decoded to its end.
    pub fn pending_decision(&self, logged: &Vec<u64>, complete: bool, pending: Option<u64>) -> (r: Result<PendingRepair, LedgerError>)
        ensures
            match spec_pending_repair(self.last_delta_seq, logged@, complete, pending) {
                Ok(PendingRepair::Nothing) => r matches Ok(PendingRepair::Nothing),
                Ok(PendingRepair::Discard) => r matches Ok(PendingRepair::Discard),
                Ok(PendingRepair::Append) => r matches Ok(PendingRepair::Append),
                Err(()) => r is Err,
            },
    {
        match pending {
            None => {
                if complete {
                    Ok(PendingRepair::Nothing)
                } else {
                    Err(LedgerError::CorruptTail)
                }
            },
            Some(p) => {
                let mut logged_has = false;
                let mut i: usize = 0;
                while i < logged.len()
                    invariant
                        i <= logged@.len(),
                        logged_has == exists|j: int| 0 <= j < i && logged@[j] == p,
                    decreases logged@.len() - i,
                {
                    if logged[i] == p {
                        logged_has = true;
                    }
                    i = i + 1;
                }
                proof {
                    if logged_has {
                        let j = choose|j: int| 0 <= j < logged@.len() && logged@[j] == p;
                        assert(logged@.contains(p));
                    }
                    if logged@.contains(p) {
                        let j = choose|j: int| 0 <= j < logged@.len() && logged@[j] == p;
                    }
                }
                if !complete || !logged_has {
                    let last = if logged.len() == 0 { self.last_delta_seq } else { logged[logged.len() - 1] };
                    if p != last.saturating_add(1) {
                        Err(LedgerError::PendingDiscontinuous)
                    } else {
                        Ok(PendingRepair::Append)
                    }
                } else {
                    Ok(PendingRepair::Discard)
                }
            },
        }
    }
}

// ---------------------------------------------------------------------------
// One accounting call, staged and then applied.

/// The material a stack of `stack.count` items of `stack.item` carries.
pub open spec fn stack_mats(reg: Registry, stack: ItemStack) -> Map<Seq<char>, u64> {
    spec_add_vector(Map::empty(), reg.spec_item(stack.item).materials@, stack.count as int)
}

/// Recording consumption is one journal position: when the delta that
/// `record_consumption` staged for `materials` is applied by
/// `apply_committed`, exactly `materials` has left circulation (any
/// shortfall named as an external addition) for the consumption sink, the
/// journal stands one position further, nothing else changed, and no
/// material's unexplained gap moved unless the sink saturated.
pub proof fn lemma_consumption_applied(a: MaterialLedger, materials: MaterialVector, d: MaterialDelta, b: MaterialLedger)
    requires
        ledger_wf(a),
        d.seq == next_seq(a),
        d.action matches MaterialDeltaAction::Consumption(v) && v@ == materials@,
        delta_fits(a, d.action),
        b.last_delta_seq == d.seq,
        spec_delta_applied(a, with_seq(b, a.last_delta_seq), d.action),
    ensures
        b.explicit_consumption@ == spec_add_vector(a.explicit_consumption@, materials@, 1),
        b.circulating@ == spec_drain(a.circulating@, materials@),
        b.external_additions@ == spec_name_shortfall(a.external_additions@, a.circulating@, materials@),
        b.explicit_loss@ == a.explicit_loss@,
        b.secondary_physical@ == a.secondary_physical@,
        b.placed@ == a.placed@,
        b.salvage@ == a.salvage@,
        b.deposits@ == a.deposits@,
        a.last_delta_seq < u64::MAX ==> b.last_delta_seq == a.last_delta_seq + 1,
        adds_fit(a.explicit_consumption@, materials@) ==> forall|m: Seq<char>|
            #[trigger] spec_unexplained(b, m) == spec_unexplained(a, m),
{
    let bb = with_seq(b, a.last_delta_seq);
    if adds_fit(a.explicit_consumption@, materials@) {
        lemma_add_amt(a.explicit_consumption@, materials@);
        lemma_drain_amt(a.circulating@, materials@, a.external_additions@);
        assert forall|m: Seq<char>| #[trigger] spec_unexplained(b, m) == spec_unexplained(a, m) by {
            assert(spec_unexplained(b, m) == spec_unexplained(bb, m));
        }
    }
}

/// Burying a stack is one journal position: when the delta that
/// `bury_stack` staged is applied by `apply_committed`, the pool of the
/// burial's region holds the stack's material on top of what it held, has
/// counted one more burial and remembers `reason`; every other pool is as
/// it was; the material left circulation (or, for scale and slag, secondary
/// stock), any shortfall named as an external addition; the journal stands
/// one position further; and no material's unexplained gap moved unless the
/// pool saturated.
pub proof fn lemma_burial_applied(
    a: MaterialLedger,
    reg: Registry,
    pos: BlockPos,
    stack: ItemStack,
    reason: Seq<char>,
    d: MaterialDelta,
    b: MaterialLedger,
)
    requires
        ledger_wf(a),
        reg.valid_item(stack.item),
        d.seq == next_seq(a),
        d.action matches MaterialDeltaAction::Bury { region, materials: v, from_secondary, reason: why }
            && region == spec_region_at(pos) && v@ == stack_mats(reg, stack)
            && from_secondary == spec_is_secondary(reg.spec_item(stack.item).name@) && why@ == reason,
        delta_fits(a, d.action),
        b.last_delta_seq == d.seq,
        spec_delta_applied(a, with_seq(b, a.last_delta_seq), d.action),
    ensures
        ({
            let region = spec_region_at(pos);
            let mats = stack_mats(reg, stack);
            let secondary = spec_is_secondary(reg.spec_item(stack.item).name@);
            &&& pool_view(b.salvage@, region) == spec_add_vector(pool_view(a.salvage@, region), mats, 1)
            &&& pool_events(b.salvage@, region) == if pool_events(a.salvage@, region) == u64::MAX {
                u64::MAX
            } else {
                (pool_events(a.salvage@, region) + 1) as u64
            }
            &&& exists|i: int| 0 <= i < b.salvage@.len() && b.salvage@[i].0 == region && b.salvage@[i].1.last_reason@ == reason
            &&& forall|r: SalvageRegion| r != region ==> #[trigger] pool_view(b.salvage@, r) == pool_view(a.salvage@, r)
            &&& bury_source(b, secondary) == spec_drain(bury_source(a, secondary), mats)
            &&& bury_source(b, !secondary) == bury_source(a, !secondary)
            &&& b.external_additions@ == spec_name_shortfall(a.external_additions@, bury_source(a, secondary), mats)
            &&& b.explicit_loss@ == a.explicit_loss@
            &&& b.explicit_consumption@ == a.explicit_consumption@
            &&& b.placed@ == a.placed@
            &&& b.deposits@ == a.deposits@
            &&& (a.last_delta_seq < u64::MAX ==> b.last_delta_seq == a.last_delta_seq + 1)
            &&& (adds_fit(pool_view(a.salvage@, region), mats) ==> forall|m: Seq<char>|
                #[trigger] spec_unexplained(b, m) == spec_unexplained(a, m))
        }),
{
    let region = spec_region_at(pos);
    let mats = stack_mats(reg, stack);
    let secondary = spec_is_secondary(reg.spec_item(stack.item).name@);
    let bb = with_seq(b, a.last_delta_seq);
    if adds_fit(pool_view(a.salvage@, region), mats) {
        lemma_add_amt(pool_view(a.salvage@, region), mats);
        lemma_drain_amt(bury_source(a, secondary), mats, a.external_additions@);
        assert forall|m: Seq<char>| #[trigger] spec_unexplained(b, m) == spec_unexplained(a, m) by {
            assert(spec_unexplained(b, m) == spec_unexplained(bb, m));
            assert(seq_sum(b.salvage@, f_pool(m)) == seq_sum(a.salvage@, f_pool(m)) - amt(
                pool_view(a.salvage@, region),
                m,
            ) + amt(pool_view(b.salvage@, region), m));
        }
    }
}

/// Introducing a stack from outside is one journal position: when the
/// delta that `record_external_stack` staged is applied by
/// `apply_committed`, the stack's material is added to the named external
/// additions, to what `source` has introduced, and to circulation (or, for
/// scale and slag, to secondary stock); every other source is as it was;
/// the journal stands one position further; and no material's unexplained
/// gap moved unless a counter saturated.
pub proof fn lemma_external_stack_applied(
    a: MaterialLedger,
    reg: Registry,
    stack: ItemStack,
    source: Seq<char>,
    d: MaterialDelta,
    b: MaterialLedger,
)
    requires
        ledger_wf(a),
        reg.valid_item(stack.item),
        d.seq == next_seq(a),
        d.action matches MaterialDeltaAction::External { materials: v, secondary, source: src }
            && v@ == stack_mats(reg, stack) && secondary == spec_is_secondary(reg.spec_item(stack.item).name@)
            && src@ == source,
        b.last_delta_seq == d.seq,
        spec_delta_applied(a, with_seq(b, a.last_delta_seq), d.action),
    ensures
        ({
            let mats = stack_mats(reg, stack);
            let secondary = spec_is_secondary(reg.spec_item(stack.item).name@);
            &&& b.external_additions@ == spec_add_vector(a.external_additions@, mats, 1)
            &&& source_view(b.external_sources@, source) == spec_add_vector(source_view(a.external_sources@, source), mats, 1)
            &&& forall|n: Seq<char>| n != source ==> #[trigger] source_view(b.external_sources@, n) == source_view(a.external_sources@, n)
            &&& bury_source(b, secondary) == spec_add_vector(bury_source(a, secondary), mats, 1)
            &&& bury_source(b, !secondary) == bury_source(a, !secondary)
            &&& b.salvage@ == a.salvage@
            &&& b.explicit_loss@ == a.explicit_loss@
            &&& b.explicit_consumption@ == a.explicit_consumption@
            &&& b.placed@ == a.placed@
            &&& b.deposits@ == a.deposits@
            &&& (a.last_delta_seq < u64::MAX ==> b.last_delta_seq == a.last_delta_seq + 1)
            &&& (adds_fit(a.external_additions@, mats) && adds_fit(bury_source(a, secondary), mats) ==> forall|m: Seq<char>|
                #[trigger] spec_unexplained(b, m) == spec_unexplained(a, m))
        }),
{
    let mats = stack_mats(reg, stack);
    let secondary = spec_is_secondary(reg.spec_item(stack.item).name@);
    let bb = with_seq(b, a.last_delta_seq);
    if adds_fit(a.external_additions@, mats) && adds_fit(bury_source(a, secondary), mats) {
        lemma_add_amt(a.external_additions@, mats);
        lemma_add_amt(bury_source(a, secondary), mats);
        assert forall|m: Seq<char>| #[trigger] spec_unexplained(b, m) == spec_unexplained(a, m) by {
            assert(spec_unexplained(b, m) == spec_unexplained(bb, m));
        }
    }
}


} // verus!
