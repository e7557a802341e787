use wildforge::lights::{key_bits, Key};
use wildforge::magic_qualification::{MagicAuditOutcomes, MagicQualificationReport, MagicSections, WaterFigures};
use wildforge::content_checks::{
    content_errors, AnimalDef, BrushBlock, ContentChecks, ItemEntry, LootEntry, LootTable, RecipeShape, StructureDef,
};
use wildforge::content_graph::{obtainable_items, ContentGraph, Conversion};
use wildforge::mod_lint::{missing_textures, qualify_mods, BlockTextures, ItemTexture, LoadedMod, ModLintReport};
use wildforge::planet::{BlockPos, Face};
use wildforge::reclaim::{leaf_of, str_less};
use wildforge::text::{decimal, trim_end_char};

#[test]
fn block_light_keys_pack_their_cell() {
    let pos = BlockPos::new(Face::PosZ, 3, 80, 7).unwrap();
    assert_eq!(key_bits(Key::Block(pos)), (4u64 << 48) | (3u64 << 32) | (80u64 << 16) | 7);
    assert_eq!(key_bits(Key::Held), 1 << 62);
    assert_eq!(key_bits(Key::Mob(9)), (2 << 62) | 9);
    assert_eq!(key_bits(Key::RemoteHeld(1)), (3 << 62) | (1 << 20));
    assert_eq!(key_bits(Key::Working(u64::MAX)), u64::MAX);
    let other = BlockPos::new(Face::PosZ, 3, 80, 8).unwrap();
    assert_ne!(key_bits(Key::Block(pos)), key_bits(Key::Block(other)));
}

#[test]
fn mod_lint_report_renders_failures_then_verdict() {
    let pass = ModLintReport { mods_dir: "mods".to_string(), failures: vec![], warnings: vec!["slow".to_string()] };
    assert!(pass.is_qualified());
    assert_eq!(pass.render(), "mods: mods\nfailures: none\nwarning: slow\nqualification status: PASS\n");
    let fail = ModLintReport {
        mods_dir: "mods".to_string(),
        failures: vec!["mod gems: broken".to_string(), "missing texture x.png".to_string()],
        warnings: vec![],
    };
    assert!(!fail.is_qualified());
    assert_eq!(
        fail.render(),
        "mods: mods\nfailure: mod gems: broken\nfailure: missing texture x.png\nqualification status: FAIL\n"
    );
}

fn outcomes() -> MagicAuditOutcomes {
    MagicAuditOutcomes {
        arcane_balanced: true,
        arcane_external_adjustment: 0,
        geography_balanced: true,
        geography_custody_matches: true,
        ecology_sites: 3,
        ecology_roles: 7,
        ecology_variants: 6,
        discovery_qualified: true,
        implements_qualified: true,
        workings_qualified: true,
        alchemy_qualified: true,
        dross_balanced: true,
        unexplained_water_delta_hu: 0,
        unexplained_salt_delta: 0,
        materials_balanced: true,
        materials_qualified: true,
    }
}

#[test]
fn magic_qualification_refuses_any_partial_success() {
    assert!(outcomes().is_qualified());
    let mut narrow = outcomes();
    narrow.ecology_roles = 6;
    assert!(!narrow.ecology_has_required_breadth());
    assert!(!narrow.is_qualified());
    let mut salty = outcomes();
    salty.unexplained_salt_delta = -1;
    assert!(!salty.is_qualified());
    let report = MagicQualificationReport { qualified: true, elapsed_micros: 5, text: "MAGIC QUALIFICATION: PASS\n".to_string() };
    assert_eq!(report.render(), "MAGIC QUALIFICATION: PASS\n");
}

#[test]
fn names_compare_like_str() {
    assert!(str_less("base:a", "base:b"));
    assert!(str_less("base", "base:a"));
    assert!(!str_less("base:b", "base:a"));
    assert!(!str_less("same", "same"));
    assert_eq!(leaf_of("base:copper_ingot"), "copper_ingot");
    assert_eq!(leaf_of("a:b:c"), "c");
    assert_eq!(leaf_of("plain"), "plain");
}

#[test]
fn text_helpers() {
    assert_eq!(decimal(0), "0");
    assert_eq!(decimal(1_200), "1200");
    assert_eq!(trim_end_char("1.500", '0'), "1.5");
}

fn sections() -> MagicSections {
    MagicSections {
        arcane: "ARCANE\n".to_string(),
        geography: "GEOGRAPHY\n".to_string(),
        ecology: "ECOLOGY\n".to_string(),
        discovery: "DISCOVERY\n".to_string(),
        implements: "IMPLEMENTS\n".to_string(),
        workings: "WORKINGS\n".to_string(),
        alchemy: "ALCHEMY\n".to_string(),
        dross: "DROSS\n".to_string(),
        materials: "MATERIALS\n".to_string(),
    }
}

#[test]
fn magic_report_lays_out_every_section_and_the_verdict() {
    let water = WaterFigures { expected_water_hu: 100, current_water_hu: 99, expected_salt_mass: 7, current_salt_mass: 8 };
    let mut o = outcomes();
    o.unexplained_water_delta_hu = 1;
    o.unexplained_salt_delta = -1;
    let report = MagicQualificationReport::compose("/tmp/world", 0xbeef, 42, &o, &water, &sections());
    assert!(!report.qualified);
    assert_eq!(report.elapsed_micros, 42);
    let mut expected = String::new();
    expected.push_str("Wildforge magic qualification schema 1\n");
    expected.push_str("World: /tmp/world\n");
    expected.push_str("Content hash: 000000000000beef\n");
    expected.push_str("Elapsed: 42 us\n\n");
    expected.push_str(&format!("ARCANE\n\nGEOGRAPHY\nLedger custody matches: {}\n\n", o.geography_custody_matches));
    expected.push_str(&format!(
        "ECOLOGY\nRequired ecological breadth: {} roles, {} habitat expressions, status=qualified\n\n",
        o.ecology_roles, o.ecology_variants
    ));
    expected.push_str("DISCOVERY\n\nIMPLEMENTS\n\nWORKINGS\n\nALCHEMY\n\nDROSS\n\n");
    expected.push_str("Planetary water/salt audit\n");
    expected.push_str("Water expected: 100 HU\n");
    expected.push_str("Water accounted: 99 HU\n");
    expected.push_str("Water unexplained delta: 1 HU\n");
    expected.push_str("Salt expected: 7\n");
    expected.push_str("Salt accounted: 8\n");
    expected.push_str("Salt unexplained delta: -1\n\n");
    expected.push_str("MATERIALS\n\nMAGIC QUALIFICATION: FAILED\n");
    assert_eq!(report.text, expected);
    let passing = MagicQualificationReport::compose("w", 1, 0, &outcomes(), &WaterFigures {
        expected_water_hu: 1,
        current_water_hu: 1,
        expected_salt_mass: 1,
        current_salt_mass: 1,
    }, &sections());
    assert!(passing.qualified);
    assert!(passing.text.ends_with("MATERIALS\n\nMAGIC QUALIFICATION: PASS\n"));
}

#[test]
fn missing_textures_skip_the_placeholder_block() {
    let blocks = vec![
        BlockTextures { name: "base:unknown".to_string(), tiles: vec![0, 0] },
        BlockTextures { name: "gems:ruby_ore".to_string(), tiles: vec![4, 0, 4] },
        BlockTextures { name: "base:stone".to_string(), tiles: vec![3] },
    ];
    let items = vec![
        ItemTexture { name: "gems:ruby".to_string(), icon: 0 },
        ItemTexture { name: "base:stick".to_string(), icon: 9 },
    ];
    assert_eq!(
        missing_textures(&blocks, &items, 0),
        vec!["block gems:ruby_ore has no real texture".to_string(), "item gems:ruby has no real texture".to_string()]
    );
}

fn conversion(needs: Vec<Vec<u16>>, gives: Vec<u16>) -> Conversion {
    Conversion { needs, gives }
}

fn graph(sources: Vec<u16>, recipes: Vec<Conversion>, smelts: Vec<Conversion>) -> ContentGraph {
    ContentGraph {
        sources,
        recipes,
        smelts,
        bloomery: Vec::new(),
        worked: Vec::new(),
        wear: Vec::new(),
        forge_salvage: Vec::new(),
        implements: Vec::new(),
        alchemy: Vec::new(),
        code_paths: Vec::new(),
        kiln: Vec::new(),
        separation: Vec::new(),
    }
}

fn no_checks() -> ContentChecks {
    ContentChecks {
        recipes: Vec::new(),
        loots: Vec::new(),
        structures: Vec::new(),
        brushes: Vec::new(),
        animals: Vec::new(),
        items: Vec::new(),
        fuels: Vec::new(),
    }
}

fn item_entry(name: &str) -> ItemEntry {
    ItemEntry { name: name.to_string(), creative_only: false, world_only: false }
}

/// A small clean pack: logs drop from trees, planks are crafted from logs,
/// charcoal is smelted from logs, and charcoal burns.
fn clean_pack() -> (ContentGraph, ContentChecks) {
    let g = graph(
        vec![0],
        vec![conversion(vec![vec![0]], vec![1])],
        vec![conversion(vec![vec![0]], vec![2])],
    );
    let mut c = no_checks();
    c.items = vec![item_entry("base:log"), item_entry("base:planks"), item_entry("base:charcoal")];
    c.recipes = vec![RecipeShape {
        output: "base:planks".to_string(),
        pattern_len: 1,
        w: 1,
        h: 1,
        count: 4,
        has_ingredient: true,
    }];
    c.fuels = vec![vec![2]];
    (g, c)
}

#[test]
fn obtainable_items_close_over_every_conversion() {
    let g = graph(
        vec![3, 3],
        vec![
            conversion(vec![vec![5], vec![4, 3]], vec![6]),
            conversion(vec![vec![3]], vec![5]),
            conversion(vec![Vec::new()], vec![9]),
        ],
        vec![conversion(vec![vec![6]], vec![7, 8])],
    );
    let mut ok = obtainable_items(&g);
    ok.sort();
    assert_eq!(ok, vec![3, 5, 6, 7, 8]);
}

#[test]
fn content_errors_report_every_problem_in_order() {
    let (g, mut c) = clean_pack();
    assert!(content_errors(&g, &c).is_empty());
    c.recipes.push(RecipeShape {
        output: "base:door".to_string(),
        pattern_len: 5,
        w: 2,
        h: 3,
        count: 1,
        has_ingredient: false,
    });
    c.loots = vec![LootTable {
        name: "ruins".to_string(),
        entries: vec![LootEntry { weight: 0, min: 1, max: 1 }, LootEntry { weight: 1, min: 3, max: 2 }],
    }];
    c.structures = vec![StructureDef {
        name: "hut".to_string(),
        loot: Some("camp".to_string()),
        cells: vec!['.', 'x', 'C', 'w'],
        palette: vec!['w'],
    }];
    c.brushes = vec![BrushBlock { name: "base:sand".to_string(), table: "ruins".to_string() }];
    c.animals = vec![AnimalDef {
        name: "base:deer".to_string(),
        wanders: true,
        biomes: vec!["forest".to_string(), "moon".to_string()],
        breed_food: Some(8),
    }];
    c.items.push(item_entry("base:door"));
    c.fuels = vec![vec![7]];
    assert_eq!(
        content_errors(&g, &c),
        vec![
            "recipe for base:door malformed".to_string(),
            "recipe for base:door is empty".to_string(),
            "loot table ruins entry malformed".to_string(),
            "loot table ruins entry malformed".to_string(),
            "structure hut wants missing loot table camp".to_string(),
            "structure hut uses unmapped char 'x'".to_string(),
            "animal base:deer has invalid biomes [\"forest\", \"moon\"]".to_string(),
            "unobtainable in survival: base:door".to_string(),
            "no obtainable fuel".to_string(),
            "breed food for base:deer unobtainable".to_string(),
        ]
    );
}

#[test]
fn mod_qualification_collects_failures_in_order() {
    let mods = vec![
        LoadedMod { id: "base".to_string(), error: None },
        LoadedMod { id: "gems".to_string(), error: Some("bad toml".to_string()) },
    ];
    let items = vec![ItemTexture { name: "gems:ruby".to_string(), icon: 0 }];
    let (g, mut c) = clean_pack();
    c.items.push(item_entry("gems:ruby"));
    let report = qualify_mods(
        "mods",
        &mods,
        &vec!["material: x".to_string()],
        &Vec::new(),
        &Vec::new(),
        &items,
        0,
        &g,
        &c,
        &vec!["script: y".to_string()],
    );
    assert_eq!(
        report.failures,
        vec![
            "mod gems: bad toml".to_string(),
            "material: x".to_string(),
            "item gems:ruby has no real texture".to_string(),
            "unobtainable in survival: gems:ruby".to_string(),
            "script: y".to_string(),
        ]
    );
    assert!(report.warnings.is_empty());
    assert!(!report.is_qualified());
}

#[test]
fn base_content_passes_qualification() {
    // The shipped base pack is data the library does not hold; this runs
    // every check of the qualification on a clean pack of the same shape.
    let mods = vec![LoadedMod { id: "base".to_string(), error: None }];
    let (g, c) = clean_pack();
    let blocks = vec![BlockTextures { name: "base:log".to_string(), tiles: vec![3, 3, 4] }];
    let items = vec![ItemTexture { name: "base:log".to_string(), icon: 3 }];
    let report = qualify_mods(
        "/nonexistent-mods-dir",
        &mods,
        &Vec::new(),
        &Vec::new(),
        &blocks,
        &items,
        0,
        &g,
        &c,
        &Vec::new(),
    );
    assert!(report.is_qualified(), "{}", report.render());
}
