use wildforge::census::InstanceCustody;
use wildforge::implements::{
    charge_band, qualitative_current, short_id, ImplementAuditEvent, ImplementComponent, ImplementError,
    ImplementInstance, ImplementKind, ImplementsAudit, ImplementsState, IMPLEMENTS_SCHEMA_VERSION,
    IMPLEMENT_RESOLVER_VERSION, MAX_IMPLEMENT_AUDIT, VESSEL_CAPACITY, VESSEL_SAFE_TRANSFER,
};
use wildforge::vector::MaterialVector;

fn vessel(id: u64) -> ImplementInstance {
    let mut materials = MaterialVector::new();
    materials.insert("glass", 1_200);
    ImplementInstance {
        instance_id: id,
        content_id: "base:charge_vessel".to_string(),
        kind: ImplementKind::Vessel { capacity: VESSEL_CAPACITY, safe_transfer: VESSEL_SAFE_TRANSFER, containment: 500 },
        construction: vec![ImplementComponent { content_id: "base:glass_shell".to_string(), materials }],
        wear: 0,
        strain: 0,
        provenance: "test".to_string(),
        created_day: 1,
        format_version: IMPLEMENT_RESOLVER_VERSION,
        creative: false,
    }
}

fn event(id: u64) -> ImplementAuditEvent {
    ImplementAuditEvent {
        operation_id: id,
        kind: "test".to_string(),
        instance_id: 0,
        units: 0,
        dross: 0,
        actor: "tester".to_string(),
        note: String::new(),
    }
}

#[test]
fn inserted_instances_are_found_in_id_order() {
    let mut state = ImplementsState::new(0);
    assert!(state.insert(vessel(5)).is_ok());
    assert!(state.insert(vessel(2)).is_ok());
    assert!(state.insert(vessel(9)).is_ok());
    let ids: Vec<u64> = state.instances.iter().map(|i| i.instance_id).collect();
    assert_eq!(ids, vec![2, 5, 9]);
    assert_eq!(state.instance(5).map(|i| i.instance_id), Some(5));
    assert!(state.instance(4).is_none());
    assert!(state.validate().is_ok());
}

#[test]
fn duplicate_or_zero_identity_is_refused() {
    let mut state = ImplementsState::new(0);
    state.insert(vessel(5)).unwrap();
    match state.insert(vessel(5)) {
        Err(ImplementError::InvalidOperation(m)) => assert_eq!(m, "implement identity is zero or already exists"),
        _ => panic!("duplicate identity must be refused"),
    }
    assert!(matches!(state.insert(vessel(0)), Err(ImplementError::InvalidOperation(_))));
    assert_eq!(state.instances.len(), 1);
}

#[test]
fn crash_recovery_removes_only_unaccounted_records() {
    let mut state = ImplementsState::new(0);
    for id in [1, 2, 3] {
        state.insert(vessel(id)).unwrap();
    }
    let removed = state.reconcile_ledger(&vec![1, 3]).unwrap();
    assert_eq!(removed, 1);
    let ids: Vec<u64> = state.instances.iter().map(|i| i.instance_id).collect();
    assert_eq!(ids, vec![1, 3]);
    let last = state.audit.back().unwrap();
    assert_eq!(last.kind, "crash_recovery");
    assert_eq!(last.actor, "system");
    assert_eq!(
        last.note,
        "removed 1 construction record(s) whose unpersisted physical owner was rolled back by the Current ledger"
    );
    assert_eq!(state.next_operation_id, 2);
    assert_eq!(state.reconcile_ledger(&vec![1, 3]).unwrap(), 0);
    assert_eq!(state.audit.len(), 1);
}

#[test]
fn operation_ids_refuse_to_wrap() {
    let mut state = ImplementsState::new(0);
    state.next_operation_id = u64::MAX;
    assert!(matches!(state.operation_id(), Err(ImplementError::Corrupt(_))));
    assert_eq!(state.next_operation_id, u64::MAX);
}

#[test]
fn the_audit_trail_keeps_only_the_newest_events() {
    let mut state = ImplementsState::new(0);
    for id in 0..(MAX_IMPLEMENT_AUDIT as u64 + 3) {
        state.record(event(id));
    }
    assert_eq!(state.audit.len(), MAX_IMPLEMENT_AUDIT);
    assert_eq!(state.audit.front().unwrap().operation_id, 3);
    assert_eq!(state.audit.back().unwrap().operation_id, MAX_IMPLEMENT_AUDIT as u64 + 2);
}

fn audit() -> ImplementsAudit {
    ImplementsAudit {
        schema_version: IMPLEMENTS_SCHEMA_VERSION,
        resolver_version: IMPLEMENT_RESOLVER_VERSION,
        content_hash: 0xabc,
        file_bytes: 100,
        instances: 1,
        wands: 0,
        charms: 0,
        vessels: 1,
        fragment_bundles: 0,
        creative_marked: 0,
        clean_current: 10,
        retained_dross: 2,
        tracked_material_units: 1_200,
        missing_accounts: 0,
        content_mismatches: 0,
        over_capacity: 0,
        max_instance_bytes: 200,
        max_public_bytes: 100,
        audit_events: 1,
        arcane_balanced: true,
        material_balanced: true,
    }
}

#[test]
fn implements_audit_qualifies_only_when_every_check_holds() {
    assert!(audit().is_qualified());
    let mut missing = audit();
    missing.missing_accounts = 1;
    assert!(!missing.is_qualified());
    let mut unbalanced = audit();
    unbalanced.material_balanced = false;
    assert!(!unbalanced.is_qualified());
}

#[test]
fn implements_audit_renders_every_line() {
    let text = audit().render();
    assert!(text.starts_with("Implements audit schema 2 resolver 1\nContent hash: 0000000000000abc\n"));
    assert!(text.contains("Sidecar: 100 / 67108864 bytes\n"));
    assert!(text.contains("Instances: 1 (0 wands, 0 charms, 1 vessels, 0 fragment bundles; 0 creative-marked)\n"));
    assert!(text.contains("Custody: 10 clean Current, 2 retained dross\n"));
    assert!(text.ends_with("Parent material audit balanced: true\nQualified: true\n"));
}

#[test]
fn charge_bands_follow_quarters_of_capacity() {
    assert_eq!(qualitative_current(0, 100), "dormant");
    assert_eq!(qualitative_current(24, 100), "faint");
    assert_eq!(qualitative_current(25, 100), "steady");
    assert_eq!(qualitative_current(75, 100), "saturated");
    assert_eq!(charge_band(0, 100), 0);
}

#[test]
fn short_ids_drop_the_namespace() {
    assert_eq!(short_id("base:oak_wand"), "oak_wand");
    assert_eq!(short_id("plain"), "plain");
}

#[test]
fn census_counts_kinds_matter_and_custody() {
    let mut state = ImplementsState::new(77);
    let mut creative = vessel(3);
    creative.creative = true;
    state.insert(vessel(1)).unwrap();
    state.insert(vessel(2)).unwrap();
    state.insert(creative).unwrap();
    state.record(event(1));
    let custody = vec![
        InstanceCustody { clean: Some(11), dross: 2, content_matches: true, instance_bytes: 90, public_bytes: 40 },
        InstanceCustody { clean: None, dross: 0, content_matches: true, instance_bytes: 5_000, public_bytes: 5_000 },
        InstanceCustody {
            clean: Some(VESSEL_CAPACITY + 2),
            dross: 3,
            content_matches: false,
            instance_bytes: 70,
            public_bytes: 60,
        },
    ];
    let a = state.census(&custody, 512, true, true).unwrap();
    assert_eq!(a.content_hash, 77);
    assert_eq!(a.file_bytes, 512);
    assert_eq!(a.instances, 3);
    assert_eq!(a.vessels, 3);
    assert_eq!(a.wands + a.charms + a.fragment_bundles, 0);
    assert_eq!(a.creative_marked, 1);
    assert_eq!(a.tracked_material_units, 3 * 1_200);
    assert_eq!(a.missing_accounts, 1);
    assert_eq!(a.clean_current, 11 + VESSEL_CAPACITY + 2);
    assert_eq!(a.retained_dross, 5);
    assert_eq!(a.content_mismatches, 1);
    assert_eq!(a.over_capacity, 1);
    // An instance without an account is not measured.
    assert_eq!(a.max_instance_bytes, 90);
    assert_eq!(a.max_public_bytes, 60);
    assert_eq!(a.audit_events, 1);
    assert!(!a.is_qualified());
}

#[test]
fn validation_reports_the_first_failing_check() {
    let mut state = ImplementsState::new(0);
    state.schema_version = 9;
    state.migrated_legacy.push("x".repeat(100_000));
    match state.validate() {
        Err(ImplementError::Corrupt(m)) => assert_eq!(m, "unsupported implements schema 9/1"),
        other => panic!("unexpected {:?}", other),
    }
    state.schema_version = IMPLEMENTS_SCHEMA_VERSION;
    match state.validate() {
        Err(ImplementError::Corrupt(m)) => assert_eq!(m, "legacy implement migration key exceeds its metadata budget"),
        other => panic!("unexpected {:?}", other),
    }
    state.migrated_legacy.clear();
    let mut noisy = event(42);
    noisy.note = "n".repeat(100_000);
    state.audit.push_back(noisy);
    match state.validate() {
        Err(ImplementError::Corrupt(m)) => assert_eq!(m, "implement audit event 42 exceeds its metadata budget"),
        other => panic!("unexpected {:?}", other),
    }
    state.audit.clear();
    state.instances.push(vessel(5));
    state.instances.push(vessel(3));
    match state.validate() {
        Err(ImplementError::Corrupt(m)) => assert_eq!(m, "implement instance identity/content is invalid"),
        other => panic!("unexpected {:?}", other),
    }
    state.instances.remove(1);
    assert!(state.validate().is_ok());
}
