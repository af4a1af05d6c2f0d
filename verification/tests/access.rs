use rp_core::access::{
    access_store, deficit_access_code, export_decision, AccessGraph, AccessLabel, AccessLevel,
    CompactAccess, CompactCompartments, ExportRequest,
};
use rp_core::execution::ExecutionBudget;

fn label(level: AccessLevel, indexes: &[usize], vocabulary: usize) -> Option<CompactAccess> {
    Some(CompactAccess {
        level,
        compartments: CompactCompartments::from_indexes(indexes, vocabulary),
    })
}

/// 0 -> 1 -> 2 -> 0 (a cycle back to the start), 1 -> 3; 4 is unreachable.
fn graph(vocabulary: usize) -> AccessGraph {
    AccessGraph {
        targets: vec![vec![1], vec![2, 3], vec![0], vec![], vec![0]],
        labels: vec![
            label(AccessLevel::Internal, &[0], vocabulary),
            label(AccessLevel::Restricted, &[1], vocabulary),
            None,
            label(AccessLevel::Public, &[2, 1], vocabulary),
            label(AccessLevel::Exclusive, &[3], vocabulary),
        ],
        compartment_count: vocabulary,
    }
}

#[test]
fn dependency_floor_counts_each_reached_object_once_and_skips_the_start() {
    for vocabulary in [4, 70] {
        let g = graph(vocabulary);
        let (count, level, compartments, complete) = g.summary(0, &ExecutionBudget::default());
        assert!(complete);
        assert_eq!(count, 3);
        assert_eq!(level, AccessLevel::Restricted);
        assert_eq!(compartments.indexes(), vec![1, 2]);
        let (count, level, compartments, _) = g.summary(3, &ExecutionBudget::default());
        assert_eq!((count, level), (0, AccessLevel::Public));
        assert!(compartments.indexes().is_empty());
        let (count, level, _, _) = g.summary(4, &ExecutionBudget::default());
        assert_eq!((count, level), (4, AccessLevel::Restricted));
    }
}

#[test]
fn compact_compartments_switch_form_at_sixty_four_names() {
    let small = CompactCompartments::from_indexes(&[5, 1, 5], 64);
    assert!(matches!(small, CompactCompartments::Bits(_)));
    assert_eq!(small.indexes(), vec![1, 5]);
    let large = CompactCompartments::from_indexes(&[70, 1, 70, 3], 65);
    assert!(matches!(large, CompactCompartments::Many(_)));
    assert_eq!(large.indexes(), vec![1, 3, 70]);
    assert!(small.is_subset(&CompactCompartments::from_indexes(&[1, 5, 9], 64)));
    assert!(!large.is_subset(&small));
    assert_eq!(small.union(&large, 80).indexes(), vec![1, 3, 5, 70]);
    assert!(large.contains(70) && !large.contains(2));
}

#[test]
fn invalid_declaration_gets_the_effective_union_and_valid_one_keeps_its_label() {
    let g = graph(4);
    let (report, complete) = g.assess(0, &ExecutionBudget::default()).unwrap();
    assert!(complete);
    assert!(!report.valid);
    assert_eq!(report.dependency_count, 3);
    assert_eq!(report.effective_level, AccessLevel::Restricted);
    assert_eq!(report.effective_compartments.indexes(), vec![0, 1, 2]);
    assert!(g.assess(2, &ExecutionBudget::default()).is_none());
    let (report, _) = g.assess(3, &ExecutionBudget::default()).unwrap();
    assert!(report.valid);
    assert_eq!(report.effective_level, report.declared_level);
    assert_eq!(
        report.effective_compartments.indexes(),
        report.declared_compartments.indexes()
    );
}

#[test]
fn store_reports_name_compartments_in_vocabulary_order() {
    let names: Vec<String> = ["alpha", "beta", "gamma", "omega"]
        .iter()
        .map(|s| s.to_string())
        .collect();
    let store = access_store(&graph(4), names, &ExecutionBudget::default());
    let report = store.report(0).unwrap();
    assert_eq!(report.declared.level, AccessLevel::Internal);
    assert_eq!(report.declared.compartments, vec!["alpha".to_string()]);
    assert_eq!(report.required_floor.level, AccessLevel::Restricted);
    assert_eq!(
        report.required_floor.compartments,
        vec!["beta".to_string(), "gamma".to_string()]
    );
    assert_eq!(
        report.effective.compartments,
        vec!["alpha".to_string(), "beta".to_string(), "gamma".to_string()]
    );
    assert!(!report.valid);
    assert!(store.report(2).is_none());
    assert!(store.report(9).is_none());
}

#[test]
fn deficit_edges_select_specific_codes_and_fall_back_to_generic_ones() {
    assert_eq!(
        deficit_access_code(Some("relation.to_revision"), true),
        ("RP_E_ACCESS_STRUCTURAL_ENDPOINT", "access_structural_endpoint")
    );
    assert_eq!(
        deficit_access_code(Some("claim_chain.node_revisions"), false),
        ("RP_E_ACCESS_CLAIM_SELECTION", "access_claim_chain_selection")
    );
    assert_eq!(
        deficit_access_code(Some("source.revisions"), false),
        ("RP_E_ACCESS_LEVEL_DOWNGRADE", "access_level_downgrade")
    );
    assert_eq!(
        deficit_access_code(None, true),
        ("RP_E_ACCESS_COMPARTMENT_MISSING", "access_compartment_drop")
    );
}

#[test]
fn export_requires_level_ceiling_and_allowed_compartments() {
    let effective = AccessLabel {
        level: AccessLevel::Restricted,
        compartments: vec!["beta".to_string()],
    };
    let allowed = ExportRequest {
        level_ceiling: AccessLevel::Exclusive,
        allowed_compartments: vec!["alpha".to_string(), "beta".to_string()],
    };
    assert!(export_decision(effective.clone(), allowed).eligible);
    let too_low = ExportRequest {
        level_ceiling: AccessLevel::Internal,
        allowed_compartments: vec!["beta".to_string()],
    };
    assert!(!export_decision(effective.clone(), too_low).eligible);
    let missing = ExportRequest {
        level_ceiling: AccessLevel::Exclusive,
        allowed_compartments: vec![],
    };
    assert!(!export_decision(effective, missing).eligible);
}
