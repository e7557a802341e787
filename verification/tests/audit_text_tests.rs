use wildforge::materials::{ExternalSource, MaterialAudit};
use wildforge::vector::MaterialVector;

fn vector(entries: &[(&str, u64)]) -> MaterialVector {
    let mut v = MaterialVector::new();
    for (name, units) in entries {
        v.insert(name, *units);
    }
    v
}

fn counts(entries: &[(&str, usize)]) -> Vec<(String, usize)> {
    entries.iter().map(|(n, c)| (n.to_string(), *c)).collect()
}

fn sample_audit() -> MaterialAudit {
    MaterialAudit {
        original: vector(&[("tin", 5), ("copper", 12)]),
        unmaterialized: vector(&[("copper", 10), ("tin", 5)]),
        underground: vector(&[("copper", 1)]),
        circulating: vector(&[("gold", 5)]),
        placed: vector(&[("copper", 1)]),
        secondary: MaterialVector::new(),
        consumption_loss: MaterialVector::new(),
        external_additions: vector(&[("gold", 3)]),
        external_sources: vec![
            ExternalSource { source: "mod:b".to_string(), materials: vector(&[("silver", 0), ("gold", 2)]) },
            ExternalSource { source: "admin".to_string(), materials: vector(&[("gold", 1)]) },
        ],
        unexplained: vec![("tin".to_string(), 0), ("gold".to_string(), -2), ("copper".to_string(), 0)],
        critical_site_counts: counts(&[("coal", 1), ("copper", 2), ("iron", 0), ("tin", 1)]),
        bronze_bootstrap_regions: 1,
        pessimistic_technology_arcs: 0,
        major_continents: 2,
        major_continents_with_flux: 1,
        treasure_site_counts: counts(&[("diamond", 1), ("pitchblende", 0), ("rare earth", 2)]),
        retrogen_status: vec![
            ("mod:zinc".to_string(), "included in atlas genesis".to_string()),
            ("mod:bismuth".to_string(), "secondary recovery only; terrain unchanged".to_string()),
        ],
        qualification_failures: vec!["only 0 pessimistic technology arcs (need 16)".to_string()],
    }
}

#[test]
fn audit_render_sorts_rows_sources_and_policies() {
    let expected = "material              original  unmaterialized  underground  inventory/entity  placed  secondary  consumed/lost  external  unexplained\ncopper                       12              10            1                 0       1          0              0         0            0\ngold                          0               0            0                 5       0          0              0         3           -2\ntin                           5               5            0                 0       0          0              0         0            0\nstatus: CORRUPTION GAP (restore from backup; mass was not invented)\nqualification: bronze regions 1, pessimistic complete technology arcs 0 (required 16), critical sites {\"coal\": 1, \"copper\": 2, \"iron\": 0, \"tin\": 1}\nqualification: carbonate flux on 1/2 major continents; treasure sites {\"diamond\": 1, \"pitchblende\": 0, \"rare earth\": 2}\nqualification failure: only 0 pessimistic technology arcs (need 16)\nretrogen mod:bismuth: secondary recovery only; terrain unchanged\nretrogen mod:zinc: included in atlas genesis\nexternal source admin: {\"gold\": 1}\nexternal source mod:b: {\"gold\": 2, \"silver\": 0}\n";
    let audit = sample_audit();
    assert!(!audit.is_balanced());
    assert_eq!(audit.render(), expected);
}

#[test]
fn balanced_audit_reports_pass_and_keeps_long_names_whole() {
    let audit = MaterialAudit {
        original: vector(&[("a_very_long_material_name", 7)]),
        unmaterialized: vector(&[("a_very_long_material_name", 7)]),
        underground: MaterialVector::new(),
        circulating: MaterialVector::new(),
        placed: MaterialVector::new(),
        secondary: MaterialVector::new(),
        consumption_loss: MaterialVector::new(),
        external_additions: MaterialVector::new(),
        external_sources: Vec::new(),
        unexplained: vec![("a_very_long_material_name".to_string(), 0)],
        critical_site_counts: Vec::new(),
        bronze_bootstrap_regions: 3,
        pessimistic_technology_arcs: 20,
        major_continents: 1,
        major_continents_with_flux: 1,
        treasure_site_counts: Vec::new(),
        retrogen_status: Vec::new(),
        qualification_failures: Vec::new(),
    };
    let text = audit.render();
    assert!(text.contains("\na_very_long_material_name          7               7            0"));
    assert!(text.contains("status: BALANCED (all unexplained deltas are zero)\n"));
    assert!(text.contains("critical sites {}\n"));
    assert!(text.ends_with("qualification status: PASS\n"));
}
