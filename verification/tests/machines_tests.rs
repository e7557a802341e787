use wildforge::machines::MachineHandler;

#[test]
fn handler_names_round_trip() {
    for handler in MachineHandler::all() {
        assert_eq!(MachineHandler::from_name(handler.name()), Some(handler));
    }
    assert_eq!(MachineHandler::from_name("nope"), None);
}

use wildforge::machines::{qualify, resolve, RawMachine, RawMachineToml};

fn raw(id: &str, handler: &str, mouth: &str) -> RawMachine {
    RawMachine {
        id: id.into(),
        label: id.to_uppercase(),
        handler: handler.into(),
        mouth: mouth.into(),
        mouth_lit: None,
        fire_secs_negative: false,
        charge_slots: 0,
        fuel_slots: 0,
        reagent_slots: 0,
        items_per_fuel: 1,
        min_charge: 0,
        min_fuel: 0,
    }
}

#[test]
fn resolve_qualifies_and_orders() {
    let raws = vec![
        ("base".to_string(), RawMachineToml { schema_version: None, machine: vec![raw("bloomery", "bloomery", "base:bloomery")] }),
        (
            "gems".to_string(),
            RawMachineToml { schema_version: None, machine: vec![raw("jewel_bench", "workbench", "gems:jewel_bench")] },
        ),
    ];
    let machines = resolve(&raws).expect("valid pack resolves");
    assert_eq!(machines.len(), 2);
    assert_eq!(machines[0].id, "base:bloomery");
    assert_eq!(machines[0].handler, MachineHandler::Bloomery);
    assert_eq!(machines[1].id, "gems:jewel_bench");
    assert_eq!(machines[1].handler, MachineHandler::Workbench);
}

#[test]
fn unknown_handler_fails() {
    let raws = vec![(
        "base".to_string(),
        RawMachineToml { schema_version: None, machine: vec![raw("thing", "not_a_handler", "base:thing")] },
    )];
    let errors = resolve(&raws).expect_err("bad handler must fail");
    assert!(errors.iter().any(|e| e.contains("unknown machine handler")));
    assert_eq!(
        errors[0],
        "base:thing: unknown machine handler \"not_a_handler\" (expected one of bloomery, forge, kiln, separator, workbench)"
    );
}

#[test]
fn duplicate_ids_fail() {
    let raws = vec![
        ("base".to_string(), RawMachineToml { schema_version: None, machine: vec![raw("forge", "forge", "base:forge")] }),
        ("gems".to_string(), RawMachineToml { schema_version: None, machine: vec![raw("base:forge", "forge", "base:forge")] }),
    ];
    let errors = resolve(&raws).expect_err("duplicate id must fail");
    assert!(errors.iter().any(|e| e.contains("duplicate machine identity")));
}

#[test]
fn machine_knobs_are_bounded() {
    let mut too_many = raw("kiln", "kiln", "kiln");
    too_many.fuel_slots = 5;
    let mut no_fuel_yield = raw("forge", "forge", "forge");
    no_fuel_yield.items_per_fuel = 0;
    let mut cold = raw("pit", "bloomery", "pit");
    cold.fire_secs_negative = true;
    let raws = vec![("base".to_string(), RawMachineToml { schema_version: Some(1), machine: vec![too_many, no_fuel_yield, cold] })];
    let errors = resolve(&raws).unwrap_err();
    assert_eq!(
        errors,
        vec![
            "base:kiln: charge_slots and fuel_slots are capped at 4".to_string(),
            "base:forge: items_per_fuel must be at least 1".to_string(),
            "base:pit: fire_secs must not be negative".to_string(),
        ]
    );
    let empty = vec![("base".to_string(), RawMachineToml { schema_version: None, machine: vec![raw("", "kiln", "k")] })];
    assert_eq!(resolve(&empty).unwrap_err(), vec!["base: machine id must not be empty".to_string()]);
}

#[test]
fn qualification_keeps_qualified_names() {
    assert_eq!(qualify("gems", "ruby"), "gems:ruby");
    assert_eq!(qualify("gems", "base:stone"), "base:stone");
}
