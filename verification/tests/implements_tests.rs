use wildforge::implements::{
    qualitative_charge, resolve_wand, usable_charge, validate_charm, validate_component, CharmDef, CharmEffect,
    ComponentRole, WandComponentDef, MAX_COMPONENT_CAPACITY, MAX_SAFE_TRANSFER, MAX_WAND_CAPACITY, MIN_SAFE_TRANSFER,
    STRUCTURAL_SPARK_UNITS,
};
use wildforge::vector::NamedAmounts;

fn component(role: ComponentRole, capacity: u64, conductivity: u16, stability: u16) -> WandComponentDef {
    let mut resonance = NamedAmounts::new();
    resonance.insert("base:root", 1);
    WandComponentDef {
        role,
        capacity,
        conductivity,
        stability,
        resonance,
        repair_material: "base:stick".to_string(),
        heat_sensitive: false,
        saturation_instability: 0,
        containment: 0,
    }
}

fn body() -> (String, WandComponentDef) {
    ("body".to_string(), component(ComponentRole::Body, 200, 300, 900))
}

fn reservoir() -> (String, WandComponentDef) {
    ("reservoir".to_string(), component(ComponentRole::Reservoir, 500, 800, 600))
}

fn focus() -> (String, WandComponentDef) {
    ("focus".to_string(), component(ComponentRole::Focus, 0, 700, 500))
}

fn binding() -> (String, WandComponentDef) {
    ("binding".to_string(), component(ComponentRole::Binding, 100, 600, 800))
}

#[test]
fn resolver_is_role_order_independent_and_bounded() {
    let a = [body(), reservoir(), focus(), binding()];
    let b = [binding(), reservoir(), body(), focus()];
    let (_, first) = resolve_wand(&a).unwrap();
    let (_, second) = resolve_wand(&b).unwrap();
    assert_eq!(first, second);
    assert!((1..=MAX_WAND_CAPACITY).contains(&first.capacity));
    assert!((MIN_SAFE_TRANSFER..=MAX_SAFE_TRANSFER).contains(&first.safe_transfer));
    assert!((1..=1_000).contains(&first.stability));
    assert!((1..=500).contains(&first.dross_per_thousand));
}

#[test]
fn invalid_components_cannot_create_free_or_unbounded_paths() {
    let mut bad = component(ComponentRole::Body, MAX_COMPONENT_CAPACITY + 1, 0, 1_001);
    bad.resonance = NamedAmounts::new();
    assert!(validate_component("mod:bad", &bad).is_err());
    let bad_charm = CharmDef {
        effect: CharmEffect::Bark,
        charge_per_trigger: 0,
        capacity: u64::MAX,
        stability: 1_001,
        dross_per_transfer: 1_001,
    };
    assert!(validate_charm("mod:bad_charm", &bad_charm).is_err());
}

#[test]
fn structural_spark_keeps_depleted_identity_without_hidden_benefit() {
    assert_eq!(usable_charge(STRUCTURAL_SPARK_UNITS), 0);
    assert_eq!(qualitative_charge(STRUCTURAL_SPARK_UNITS, 120), "dormant");
}
