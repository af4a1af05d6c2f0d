use rp_core::findings::DEFAULT_FINDINGS_LIMIT;
use rp_core::model::ObjectType;
use rp_core::project::{
    expected_layout, is_filename_slug, node_kind_for_directory, relation_kinds_compatible,
    resource_finding, ExpectedLayout, ProjectLimits, ProjectLoadError,
};

#[test]
fn default_limits_match_the_documented_budgets() {
    let limits = ProjectLimits::default();
    assert_eq!(limits.findings, DEFAULT_FINDINGS_LIMIT);
    assert_eq!(limits.canonical_files, 100_000);
    assert_eq!(limits.directory_entries, 100_000);
    assert_eq!(limits.whole_project_yaml_bytes, 536_870_912);
    assert_eq!(limits.local_artifact_aggregate_bytes, 4_294_967_296);
    assert_eq!(limits.extension_ref_depth, 32);
}

#[test]
fn canonical_layout_follows_directories() {
    assert_eq!(expected_layout("project.yaml"), Some(ExpectedLayout::Project));
    assert_eq!(
        expected_layout("records/hypotheses/h--node_1.yaml"),
        Some(ExpectedLayout::Node(Some("Hypothesis")))
    );
    assert_eq!(
        expected_layout("records/unknown/x.yaml"),
        Some(ExpectedLayout::Node(None))
    );
    assert_eq!(expected_layout("relations/r.yaml"), Some(ExpectedLayout::Relation));
    assert_eq!(expected_layout("runs/r.yaml"), Some(ExpectedLayout::ResearchRun));
    assert_eq!(expected_layout("records/x.yaml"), Some(ExpectedLayout::Invalid));
    assert_eq!(expected_layout("relations/a/b.yaml"), Some(ExpectedLayout::Invalid));
    assert_eq!(expected_layout("notes/n.yaml"), None);
    assert_eq!(expected_layout("relations/r.yml"), None);
    assert!(ExpectedLayout::Node(Some("Hypothesis")).accepts(&ObjectType::Node("Hypothesis".to_string())));
    assert!(!ExpectedLayout::Node(Some("Hypothesis")).accepts(&ObjectType::Node("Test".to_string())));
    assert!(ExpectedLayout::Node(None).accepts(&ObjectType::Node("Test".to_string())));
    assert!(!ExpectedLayout::Invalid.accepts(&ObjectType::Project));
    assert_eq!(ExpectedLayout::Artifact.label(), "ArtifactManifest");
    assert_eq!(node_kind_for_directory("next-actions"), Some("NextAction"));
    assert_eq!(node_kind_for_directory("next_actions"), None);
}

#[test]
fn filename_slugs_are_lowercase_words_joined_by_single_hyphens() {
    for slug in ["a", "abc-123", "x-y-z"] {
        assert!(is_filename_slug(slug), "{slug}");
    }
    for slug in ["", "-a", "a-", "a--b", "Abc", "a_b", "é"] {
        assert!(!is_filename_slug(slug), "{slug}");
    }
}

#[test]
fn relation_types_constrain_endpoint_kinds() {
    assert!(relation_kinds_compatible("depends-on", "Anything", "Else"));
    assert!(relation_kinds_compatible("motivates", "Question", "Hypothesis"));
    assert!(!relation_kinds_compatible("motivates", "Hypothesis", "Question"));
    assert!(relation_kinds_compatible("requires", "Method", "Whatever"));
    assert!(relation_kinds_compatible("cites", "Anything", "PaperClaim"));
    assert!(!relation_kinds_compatible("unknown", "Method", "Test"));
}

#[test]
fn load_errors_and_resource_findings_describe_themselves() {
    assert_eq!(
        ProjectLoadError::Io("denied".to_string()).message(),
        "project I/O failed: denied"
    );
    assert_eq!(
        ProjectLoadError::UnsupportedPlatform.message(),
        "secure project loading requires Linux openat2 containment on this platform"
    );
    let finding = resource_finding("RP_E_RESOURCE_X", "limit\u{7} reached", None);
    assert_eq!(finding.finding_family, "resource_limit");
    assert_eq!(finding.json_pointer, "");
    assert!(!finding.message.contains('\u{7}'));
}
