use wildforge::inventory::ItemStack;
use wildforge::materials::{
    decode_delta_frames, delta_checksum, encode_delta_frame, stable_resource_id, LedgerError, MaterialDelta,
    MaterialLedger, MaterialQualification, SalvageRegion, DELTA_MAGIC,
};
use wildforge::modres::{GenesisDeposit, ModMineralSite, ModOre};
use wildforge::planet::{BlockPos, ChunkPos, Face};
use wildforge::reclaim::{consolidate_reclaimed_stock, recovery_item_for};
use wildforge::registry::{ItemDef, ItemId, MaterialClass, Registry};
use wildforge::reservation::FreshBlocks;
use wildforge::materials::RetrogenPolicyRecord;
use wildforge::vector::MaterialVector;

fn vector(entries: &[(&str, u64)]) -> MaterialVector {
    let mut v = MaterialVector::new();
    for (name, units) in entries {
        v.insert(name, *units);
    }
    v
}

fn item(name: &str, materials: &[(&str, u64)], max_stack: u32) -> ItemDef {
    ItemDef {
        name: name.to_string(),
        max_stack,
        durability: 0,
        tool: false,
        carry_weight: 1,
        broken_into: None,
        materials: vector(materials),
        materials_declared: true,
        material_class: MaterialClass::TransformativeFinite,
        places: false,
        ammo: None,
        armor_points: None,
    }
}

fn registry(items: Vec<ItemDef>) -> Registry {
    Registry { items, blocks: Vec::new() }
}

fn no_qualification() -> MaterialQualification {
    MaterialQualification { major_continents: 0, major_continents_with_flux: 0, treasure_site_counts: Vec::new() }
}

fn copper_deposit(id: u32, per_block_copper: u64, tonnage: u64) -> GenesisDeposit {
    GenesisDeposit {
        id,
        resource_family: "copper".to_string(),
        resource_key: "base:copper".to_string(),
        per_block: vector(&[("copper", per_block_copper)]),
        tonnage_blocks: tonnage,
        radius_blocks: 64,
        grade_ppm: 10_000,
        geode: false,
    }
}

fn ledger_with(deposits: Vec<GenesisDeposit>, reg: &Registry) -> MaterialLedger {
    MaterialLedger::initialize(&deposits, 0, 0, &Vec::new(), &Vec::new(), reg, no_qualification())
}

fn commit(ledger: &mut MaterialLedger, delta: MaterialDelta) {
    ledger.apply_committed(&delta).unwrap();
}

fn balanced(ledger: &MaterialLedger) -> bool {
    ledger.audit().is_balanced()
}

#[test]
fn genesis_ledger_starts_balanced_with_untouched_accounts() {
    let reg = registry(Vec::new());
    let ledger = ledger_with(vec![copper_deposit(7, 100, 10)], &reg);
    assert_eq!(ledger.deposits.len(), 1);
    assert_eq!(ledger.deposits[0].original_recoverable.units("copper"), 1_000);
    assert_eq!(ledger.deposits[0].remaining_unmaterialized.units("copper"), 1_000);
    assert!(balanced(&ledger));
}

#[test]
fn geode_bands_are_each_finite() {
    let reg = registry(Vec::new());
    let geode = GenesisDeposit {
        id: 3,
        resource_family: "geode".to_string(),
        resource_key: "base:geode".to_string(),
        per_block: vector(&[("quartz", 1_200)]),
        tonnage_blocks: 2,
        radius_blocks: 8,
        grade_ppm: 1,
        geode: true,
    };
    let ledger = ledger_with(vec![geode], &reg);
    let original = &ledger.deposits[0].original_recoverable;
    assert_eq!(original.units("quartz"), 2_400);
    assert_eq!(original.units("amethyst"), 2_400);
    assert_eq!(original.units("sulfur"), 2_400);
}

#[test]
fn primitive_sifting_returns_recipe_usable_stock_at_exact_seventy_five_percent() {
    let reg = registry(vec![item("base:copper_ingot", &[("copper", 1_200)], 64)]);
    let copper = ItemId(0);
    let mut ledger = ledger_with(Vec::new(), &reg);
    let pos = BlockPos::new(Face::PosZ, 300, 64, 300).unwrap();
    let four = ItemStack::new(&reg, copper, 4);
    let d = ledger.record_external_stack(&reg, four, "sifting fixture").unwrap();
    commit(&mut ledger, d);
    let d = ledger.bury_stack(&reg, pos, four, "despawn").unwrap();
    commit(&mut ledger, d);
    let region = SalvageRegion::at(pos);
    for _ in 0..3 {
        let (recovered, delta) = ledger
            .recover_salvage_stack(&reg, region, 750)
            .unwrap()
            .expect("four lost ingots fund three recovered ingots");
        assert_eq!(recovered.item, copper);
        assert_eq!(recovered.count, 1);
        commit(&mut ledger, delta);
    }
    assert!(
        ledger.recover_salvage_stack(&reg, region, 750).unwrap().is_none(),
        "the unrecovered quarter cannot mint another item"
    );
    let audit = ledger.audit();
    assert_eq!(audit.circulating.get("copper"), Some(3_600));
    assert_eq!(audit.consumption_loss.get("copper"), Some(1_200));
    assert!(audit.is_balanced());
}

#[test]
fn regional_salvage_recovers_three_quarters_of_a_batch() {
    let reg = registry(vec![item("base:copper_ingot", &[("copper", 1_200)], 64)]);
    let copper = ItemId(0);
    let mut ledger = ledger_with(Vec::new(), &reg);
    let pos = BlockPos::new(Face::PosZ, 1, 64, 1).unwrap();
    for _ in 0..10 {
        let d = ledger.bury_stack(&reg, pos, ItemStack::new(&reg, copper, 1), "despawn").unwrap();
        commit(&mut ledger, d);
    }
    assert_eq!(ledger.salvage_cardinality(), 1);
    let region = SalvageRegion::at(pos);
    let (recovered, delta) = ledger.recover_salvage(region, "copper", 1_200, 750);
    assert_eq!(recovered, 900);
    commit(&mut ledger, delta.unwrap());
    assert!(balanced(&ledger));
    let elsewhere = SalvageRegion::at(BlockPos::new(Face::PosZ, 5_000, 64, 5_000).unwrap());
    assert_eq!(ledger.recover_salvage(elsewhere, "copper", 1_200, 750).0, 0);
}

#[test]
fn consolidation_prefers_the_alloy_and_conserves_every_unit() {
    let reg = registry(vec![
        item("base:copper_ingot", &[("copper", 1_200)], 64),
        item("base:tin_ingot", &[("tin", 1_200)], 64),
        item("base:bronze_ingot", &[("copper", 900), ("tin", 300)], 64),
        item("base:salvage/forge_scrap", &[("copper", 1)], 64),
    ]);
    let mut bank = vector(&[("copper", 2_500), ("tin", 700)]);
    let out = consolidate_reclaimed_stock(&reg, &mut bank);
    assert_eq!(out.len(), 1);
    assert_eq!(out[0].item, ItemId(2));
    assert_eq!(out[0].count, 2);
    assert_eq!(bank.units("copper"), 700);
    assert_eq!(bank.units("tin"), 100);
}

#[test]
fn consolidation_splits_by_stack_size() {
    let reg = registry(vec![item("base:copper_ingot", &[("copper", 1_200)], 2)]);
    let mut bank = vector(&[("copper", 6_500)]);
    let out = consolidate_reclaimed_stock(&reg, &mut bank);
    let counts: Vec<u32> = out.iter().map(|s| s.count).collect();
    assert_eq!(counts, vec![2, 2, 1]);
    assert_eq!(bank.units("copper"), 500);
}

#[test]
fn recovery_prefers_ingots_then_fewer_units() {
    let reg = registry(vec![
        item("base:raw_copper", &[("copper", 100)], 64),
        item("base:copper_nugget", &[("copper", 50)], 64),
        item("base:copper_ingot", &[("copper", 1_200)], 64),
        item("base:bronze_ingot", &[("copper", 900), ("tin", 300)], 64),
    ]);
    assert_eq!(recovery_item_for(&reg, "copper"), Some((ItemId(2), 1_200)));
    assert_eq!(recovery_item_for(&reg, "tin"), None);
    let no_ingot = registry(vec![
        item("base:raw_copper", &[("copper", 100)], 64),
        item("base:copper", &[("copper", 60)], 64),
    ]);
    assert_eq!(recovery_item_for(&no_ingot, "copper"), Some((ItemId(1), 60)));
}

fn ore_blocks(positions: Vec<BlockPos>, candidates: Vec<u32>) -> FreshBlocks {
    FreshBlocks {
        block_name: "base:copper_ore".to_string(),
        mineral: true,
        materials: vector(&[("copper", 100)]),
        positions,
        candidates,
    }
}

#[test]
fn fresh_chunk_reserves_exact_mass_and_refuses_atomically() {
    let reg = registry(Vec::new());
    let mut ledger = ledger_with(vec![copper_deposit(7, 100, 10)], &reg);
    let chunk = ChunkPos { face: Face::PosZ, u: 0, v: 0 };
    let at = |u: u16| BlockPos::new(Face::PosZ, u, 10, 0).unwrap();
    let kinds = vec![ore_blocks(vec![at(0), at(1), at(2)], vec![7, 99, 7])];
    assert_eq!(ledger.reserve_fresh_chunk(chunk, &kinds), Ok(true));
    assert_eq!(ledger.deposits[0].remaining_unmaterialized.units("copper"), 700);
    assert_eq!(ledger.deposits[0].materialized_underground.units("copper"), 300);
    assert_eq!(ledger.chunk_reservations.len(), 1);
    assert_eq!(ledger.chunk_reservations[0].blocks[0].slices[0].deposit_id, 7);
    assert_eq!(ledger.chunk_reservations[0].blocks[0].slices[0].count, 3);
    assert!(balanced(&ledger));
    // The same kind is already reserved in this chunk.
    assert_eq!(ledger.reserve_fresh_chunk(chunk, &kinds), Ok(false));
    // Eight more blocks need 800 units; only 700 remain.
    let other = ChunkPos { face: Face::PosZ, u: 1, v: 0 };
    let big = vec![ore_blocks((16..24).map(at).collect(), vec![7])];
    match ledger.reserve_fresh_chunk(other, &big) {
        Err(LedgerError::NoCapacity { block, missing }) => {
            assert_eq!(block, "base:copper_ore");
            assert_eq!(missing, 1);
        },
        _ => panic!("an unfundable chunk is refused"),
    }
    assert_eq!(ledger.deposits[0].remaining_unmaterialized.units("copper"), 700);
    assert_eq!(ledger.chunk_reservations.len(), 1);
}

#[test]
fn empty_fresh_chunk_gets_an_empty_reservation_once() {
    let reg = registry(Vec::new());
    let mut ledger = ledger_with(Vec::new(), &reg);
    let chunk = ChunkPos { face: Face::NegX, u: 3, v: 4 };
    assert_eq!(ledger.reserve_fresh_chunk(chunk, &Vec::new()), Ok(true));
    assert_eq!(ledger.reserve_fresh_chunk(chunk, &Vec::new()), Ok(false));
    assert_eq!(ledger.chunk_reservations.len(), 1);
}

#[test]
fn authored_world_content_is_an_attributed_external_addition() {
    let reg = registry(vec![item("base:copper_ingot", &[("copper", 1_200)], 64)]);
    let mut ledger = ledger_with(Vec::new(), &reg);
    let pos = BlockPos::new(Face::PosZ, 40, 70, 40).unwrap();
    let stacks = vec![ItemStack::new(&reg, ItemId(0), 2)];
    let placements = vec![(pos, vector(&[("iron", 500)]))];
    assert!(ledger.record_external_world_content(&reg, &stacks, &placements, "ruins"));
    assert_eq!(ledger.external_additions.units("copper"), 2_400);
    assert_eq!(ledger.external_additions.units("iron"), 500);
    assert_eq!(ledger.circulating.units("copper"), 2_400);
    assert_eq!(ledger.placed.units("iron"), 500);
    assert_eq!(ledger.external_sources.len(), 1);
    assert!(balanced(&ledger));
    assert!(!ledger.record_external_world_content(&reg, &Vec::new(), &Vec::new(), "ruins"));
}

fn ruby_ore(policy: RetrogenPolicyRecord) -> ModOre {
    ModOre {
        mod_id: "gems".to_string(),
        resource_key: "gems:ruby_ore".to_string(),
        policy,
        materials: vector(&[("ruby", 10)]),
    }
}

fn site(id: u32) -> ModMineralSite {
    ModMineralSite { id, tonnage_blocks: 5, radius_blocks: 16, grade_ppm: 100 }
}

#[test]
fn mod_resources_get_finite_policy_manifests() {
    let reg = registry(Vec::new());
    let ores = vec![ruby_ore(RetrogenPolicyRecord::UntouchedHostOnly)];
    let sites = vec![site(1), site(2)];
    let mut ledger = MaterialLedger::initialize(&Vec::new(), 9, 9, &ores, &sites, &reg, no_qualification());
    assert_eq!(ledger.retrogen.len(), 1);
    assert_eq!(ledger.retrogen[0].status, "included in atlas genesis");
    assert_eq!(ledger.deposits.len(), 2);
    assert!(ledger.deposits.iter().all(|d| d.id >= 0x8000_0000));
    assert_ne!(ledger.deposits[0].id, ledger.deposits[1].id);
    assert_eq!(ledger.retrogen[0].added_mass.units("ruby"), 100);
    assert!(balanced(&ledger));
    assert!(!ledger.reconcile_mod_manifests(&ores, &sites, 9));
}

#[test]
fn post_creation_policies_report_their_status() {
    let reg = registry(Vec::new());
    let sites = vec![site(1)];
    let late = MaterialLedger::initialize(
        &Vec::new(),
        1,
        2,
        &vec![ruby_ore(RetrogenPolicyRecord::NoRetrogen)],
        &sites,
        &reg,
        no_qualification(),
    );
    assert_eq!(late.retrogen[0].status, "unavailable in this existing world; create a new planet");
    assert!(late.deposits.is_empty());
    let host = MaterialLedger::initialize(
        &Vec::new(),
        1,
        2,
        &vec![ruby_ore(RetrogenPolicyRecord::UntouchedHostOnly)],
        &sites,
        &reg,
        no_qualification(),
    );
    assert_eq!(host.retrogen[0].status, "deterministic untouched-host retrogen pending chunk visits");
    assert_eq!(host.deposits.len(), 1);
}

#[test]
fn probing_skips_taken_resource_ids() {
    let reg = registry(Vec::new());
    let start = stable_resource_id("gems:ruby_ore", 1);
    assert!(start >= 0x8000_0000);
    let ores = vec![ruby_ore(RetrogenPolicyRecord::UntouchedHostOnly)];
    let sites = vec![site(1)];
    let taken = GenesisDeposit { id: start, ..copper_deposit(0, 1, 1) };
    let ledger = MaterialLedger::initialize(&vec![taken], 9, 9, &ores, &sites, &reg, no_qualification());
    let expected = if start == u32::MAX { 0x8000_0000 } else { start + 1 };
    assert_eq!(ledger.deposits[1].id, expected);
}

#[test]
fn checksum_is_fnv1a_64() {
    assert_eq!(delta_checksum(b""), 0xcbf2_9ce4_8422_2325);
    assert_eq!(delta_checksum(b"a"), 0xaf63_dc4c_8601_ec8c);
}

#[test]
fn journal_frames_round_trip() {
    let mut journal = DELTA_MAGIC.to_vec();
    journal.extend(encode_delta_frame(b"first").unwrap());
    journal.extend(encode_delta_frame(b"second!").unwrap());
    let (ranges, end, complete) = decode_delta_frames(&journal);
    assert!(complete);
    assert_eq!(end, journal.len());
    assert_eq!(ranges.len(), 2);
    assert_eq!(&journal[ranges[0].0..ranges[0].1], b"first");
    assert_eq!(&journal[ranges[1].0..ranges[1].1], b"second!");
    // A torn tail keeps only the durable prefix.
    let torn = &journal[..journal.len() - 3];
    let (ranges, end, complete) = decode_delta_frames(torn);
    assert!(!complete);
    assert_eq!(ranges.len(), 1);
    assert!(end < torn.len());
    assert_eq!(decode_delta_frames(b"nope").0.len(), 0);
}

#[test]
fn consumption_takes_one_journal_position_and_keeps_balance() {
    let reg = registry(vec![item("base:bread", &[("grain", 40)], 64)]);
    let mut ledger = ledger_with(Vec::new(), &reg);
    let d = ledger.record_external_stack(&reg, ItemStack::new(&reg, ItemId(0), 3), "harvest fixture").unwrap();
    commit(&mut ledger, d);
    let seq = ledger.last_delta_seq;
    assert!(ledger.record_consumption(&MaterialVector::new()).is_none());
    let d = ledger.record_consumption(&vector(&[("grain", 50)])).unwrap();
    assert_eq!(d.seq, seq + 1);
    commit(&mut ledger, d);
    assert_eq!(ledger.last_delta_seq, seq + 1);
    assert_eq!(ledger.explicit_consumption.units("grain"), 50);
    assert_eq!(ledger.circulating.units("grain"), 70);
    assert!(balanced(&ledger));
}

#[test]
fn burials_share_one_pool_per_region_and_count_events() {
    let reg = registry(vec![item("base:copper_ingot", &[("copper", 1_200)], 64)]);
    let mut ledger = ledger_with(Vec::new(), &reg);
    let pos = BlockPos::new(Face::PosZ, 1, 64, 1).unwrap();
    for _ in 0..3 {
        let d = ledger.bury_stack(&reg, pos, ItemStack::new(&reg, ItemId(0), 1), "despawn").unwrap();
        commit(&mut ledger, d);
    }
    let d = ledger.bury_stack(&reg, pos, ItemStack::new(&reg, ItemId(0), 2), "decay").unwrap();
    commit(&mut ledger, d);
    assert_eq!(ledger.salvage_cardinality(), 1);
    let (region, pool) = &ledger.salvage[0];
    assert!(*region == SalvageRegion::at(pos));
    assert_eq!(pool.events, 4);
    assert_eq!(pool.materials.units("copper"), 6_000);
    assert_eq!(pool.last_reason, "decay");
    assert_eq!(ledger.last_delta_seq, 4);
    assert_eq!(ledger.external_additions.units("copper"), 6_000);
    assert!(balanced(&ledger));
}

#[test]
fn external_stacks_are_attributed_to_their_source() {
    let reg = registry(vec![item("base:tin_ingot", &[("tin", 1_200)], 64)]);
    let mut ledger = ledger_with(Vec::new(), &reg);
    let d = ledger.record_external_stack(&reg, ItemStack::new(&reg, ItemId(0), 2), "trader").unwrap();
    commit(&mut ledger, d);
    let d = ledger.record_external_stack(&reg, ItemStack::new(&reg, ItemId(0), 1), "quest").unwrap();
    commit(&mut ledger, d);
    assert_eq!(ledger.external_additions.units("tin"), 3_600);
    assert_eq!(ledger.circulating.units("tin"), 3_600);
    let trader = ledger.external_sources.iter().find(|s| s.source == "trader").unwrap();
    assert_eq!(trader.materials.units("tin"), 2_400);
    let quest = ledger.external_sources.iter().find(|s| s.source == "quest").unwrap();
    assert_eq!(quest.materials.units("tin"), 1_200);
    assert_eq!(ledger.last_delta_seq, 2);
    assert!(balanced(&ledger));
}

#[test]
fn vectors_with_equal_amounts_are_equal_whatever_the_insertion_order() {
    let a = vector(&[("tin", 3), ("copper", 5), ("zinc", 1)]);
    let b = vector(&[("zinc", 1), ("copper", 5), ("tin", 3)]);
    assert_eq!(a, b);
    let names: Vec<&str> = (0..a.len()).map(|i| a.name_at(i)).collect();
    assert_eq!(names, vec!["copper", "tin", "zinc"]);
    let mut c = vector(&[("zinc", 1), ("tin", 3), ("copper", 5)]);
    c.remove("tin");
    c.insert("tin", 3);
    assert_eq!(a, c);
}

#[test]
fn operations_without_an_authored_source_keep_their_before_block_name() {
    let legacy = wildforge::materials::MaterialOperation {
        id: 7,
        kind: wildforge::materials::MaterialOperationKind::Place,
        pos: BlockPos::new(Face::PosZ, 10, 64, 10).unwrap(),
        before: "base:air".to_string(),
        after: "base:iron_block".to_string(),
        materials: vector(&[("iron", 10_800)]),
    };
    assert_eq!(legacy.before_block_name(), "base:air");
    assert_eq!(legacy.authored_source(), "authored world edit");
    let authored = wildforge::materials::MaterialOperation { before: "base:air\0builder".to_string(), ..legacy };
    assert_eq!(authored.before_block_name(), "base:air");
    assert_eq!(authored.authored_source(), "builder");
    assert_eq!(authored.materials.units("iron"), 10_800);
}
