use wildforge::materials::{MaterialLedger, MaterialQualification, RetrogenPolicyRecord};
use wildforge::modres::{ModMineralSite, ModOre};
use wildforge::registry::Registry;
use wildforge::survey::{mineral_materials, ContinentFact, LandCell, MineralKind};
use wildforge::vector::MaterialVector;

fn none() -> MaterialQualification {
    MaterialQualification { major_continents: 0, major_continents_with_flux: 0, treasure_site_counts: Vec::new() }
}

fn continent(id: u32, major: bool) -> ContinentFact {
    ContinentFact { id, major }
}

fn cell(landmass_id: u32, carbonate: bool) -> LandCell {
    LandCell { landmass_id, carbonate }
}

#[test]
fn survey_counts_distinct_major_continents_with_flux() {
    let continents = vec![continent(1, true), continent(2, false), continent(3, true), continent(1, true)];
    let cells = vec![cell(1, true), cell(1, true), cell(2, true), cell(3, false), cell(9, true)];
    let sites = vec![
        MineralKind::Diamond,
        MineralKind::RareEarth,
        MineralKind::Copper,
        MineralKind::RareEarth,
        MineralKind::Geode,
    ];
    let q = MaterialQualification::survey(&continents, &cells, &sites);
    assert_eq!(q.major_continents, 2);
    assert_eq!(q.major_continents_with_flux, 1);
    assert_eq!(
        q.treasure_site_counts,
        vec![("diamond".to_string(), 1), ("pitchblende".to_string(), 0), ("rare earth".to_string(), 2)]
    );
}

#[test]
fn reconcile_qualification_reports_a_change_once() {
    let reg = Registry { items: Vec::new(), blocks: Vec::new() };
    let mut ledger = MaterialLedger::initialize(&Vec::new(), 4, 4, &Vec::new(), &Vec::new(), &reg, none());
    let q = MaterialQualification::survey(&vec![continent(5, true)], &vec![cell(5, true)], &Vec::new());
    assert!(ledger.reconcile_qualification(q));
    assert_eq!(ledger.qualification.major_continents_with_flux, 1);
    let again = MaterialQualification::survey(&vec![continent(5, true)], &vec![cell(5, true)], &Vec::new());
    assert!(!ledger.reconcile_qualification(again));
}

#[test]
fn reconcile_loaded_adopts_content_and_asks_for_a_save() {
    let reg = Registry { items: Vec::new(), blocks: Vec::new() };
    let mut ledger = MaterialLedger::initialize(&Vec::new(), 4, 4, &Vec::new(), &Vec::new(), &reg, none());
    assert!(!ledger.reconcile_loaded(&Vec::new(), &Vec::new(), &reg, 4, none()));
    let mut materials = MaterialVector::new();
    materials.insert("zinc", 10);
    let ores = vec![ModOre {
        mod_id: "metals".to_string(),
        resource_key: "metals:zinc_ore".to_string(),
        policy: RetrogenPolicyRecord::SecondaryRecovery,
        materials,
    }];
    let sites = vec![ModMineralSite { id: 1, tonnage_blocks: 3, radius_blocks: 8, grade_ppm: 50 }];
    assert!(ledger.reconcile_loaded(&ores, &sites, &reg, 7, none()));
    assert_eq!(ledger.content_hash, 7);
    assert_eq!(ledger.retrogen.len(), 1);
    assert_eq!(ledger.retrogen[0].status, "secondary recovery only; terrain unchanged");
    assert!(ledger.deposits.is_empty());
    assert!(ledger.audit().is_balanced());
    assert!(!ledger.reconcile_loaded(&ores, &sites, &reg, 7, none()));
}

#[test]
fn mineral_materials_prefer_the_first_declaring_ore() {
    let mut bronze_ore = MaterialVector::new();
    bronze_ore.insert("copper", 900);
    bronze_ore.insert("tin", 100);
    let mut copper_ore = MaterialVector::new();
    copper_ore.insert("copper", 1_000);
    let ores = vec![
        (MineralKind::Copper, MaterialVector::new()),
        (MineralKind::Tin, copper_ore),
        (MineralKind::Copper, bronze_ore),
    ];
    let copper = mineral_materials(MineralKind::Copper, &ores);
    assert_eq!(copper.units("copper"), 900);
    assert_eq!(copper.units("tin"), 100);
    let salt = mineral_materials(MineralKind::Halite, &ores);
    assert_eq!(salt.len(), 1);
    assert_eq!(salt.units("salt"), 2_400);
    let galena = mineral_materials(MineralKind::Galena, &Vec::new());
    assert_eq!(galena.units("lead"), 1_200);
}
