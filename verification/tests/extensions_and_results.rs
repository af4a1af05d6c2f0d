use rp_core::content::{
    extension_schema_path, extension_schema_uri, path_or_content_finding, resolve_schema_path,
    template_matches, ExtensionSchemaError, SecureReadError,
};
use rp_core::execution::ExecutionStop;
use rp_core::finding::{not_found_finding, Finding, ProjectPath, Severity, Status};
use rp_core::findings::{sort_findings, CommandResult, Findings};
use rp_core::init::project_title;
use rp_core::model::{expected_type, ReferenceExpectation};
use rp_core::report_json::{report_json_code, ReportJsonError};

fn path(p: &str) -> ProjectPath {
    ProjectPath::new(p).unwrap()
}

fn strings(items: &[&str]) -> Vec<String> {
    items.iter().map(|s| s.to_string()).collect()
}

#[test]
fn extension_schemas_live_under_dotted_directories() {
    assert_eq!(
        extension_schema_path("org.example.lab/v2").as_deref(),
        Some(".research/schemas/org/example/lab/v2.schema.json")
    );
    assert_eq!(
        extension_schema_path("a/b/v1").as_deref(),
        Some(".research/schemas/a/b/v1.schema.json")
    );
    assert_eq!(extension_schema_path("noversion"), None);
    assert_eq!(extension_schema_path("org.example/2"), None);
    assert_eq!(extension_schema_path("org.example/"), None);
    assert_eq!(
        extension_schema_uri(".research/schemas/x/v1.schema.json"),
        "https://research-provenance.invalid/project/.research/schemas/x/v1.schema.json"
    );
}

#[test]
fn schema_references_resolve_inside_the_schema_directory() {
    let current = ".research/schemas/org/example/v1.schema.json";
    assert_eq!(
        resolve_schema_path(current, "common.schema.json").unwrap(),
        ".research/schemas/org/example/common.schema.json"
    );
    assert_eq!(
        resolve_schema_path(current, "./../shared/./defs.schema.json").unwrap(),
        ".research/schemas/org/shared/defs.schema.json"
    );
    for forbidden in [
        "",
        "/abs.schema.json",
        "a\\b.schema.json",
        "x.schema.json?q",
        "http:x.schema.json",
        "%2E%2E/x.schema.json",
        "%2fx.schema.json",
        "../../../../../x.schema.json",
        "../../../../x.schema.json",
        "other.json",
    ] {
        assert_eq!(
            resolve_schema_path(current, forbidden),
            Err(ExtensionSchemaError::Forbidden),
            "{forbidden}"
        );
    }
}

#[test]
fn segment_templates_match_wildcards_and_exact_segments() {
    let template = strings(&["nodes", "*", "revisions"]);
    assert!(template_matches(&template, &strings(&["nodes", "n1", "revisions"])));
    assert!(!template_matches(&template, &strings(&["nodes", "n1", "other"])));
    assert!(!template_matches(&template, &strings(&["nodes", "n1"])));
    assert!(template_matches(&Vec::new(), &Vec::new()));
}

#[test]
fn failed_contained_reads_become_their_findings() {
    let f = path_or_content_finding(
        SecureReadError::Symlink,
        "RP_E_DEFAULT",
        "default_family",
        path("nodes/a.json"),
        "/narrative/path",
    );
    assert_eq!(f.error_code, "RP_E_PATH_SYMLINK_FORBIDDEN");
    assert_eq!(f.finding_family, "path_containment");
    assert_eq!(f.severity, Severity::Error);
    assert_eq!(f.source_file, Some(path("nodes/a.json")));
    assert_eq!(f.json_pointer, "/narrative/path");

    let missing = path_or_content_finding(
        SecureReadError::Missing,
        "RP_E_DEFAULT",
        "default_family",
        path("nodes/a.json"),
        "/p",
    );
    assert_eq!(missing.error_code, "RP_E_DEFAULT");
    assert_eq!(missing.finding_family, "default_family");

    let stopped = path_or_content_finding(
        SecureReadError::Stopped(ExecutionStop::Interrupted),
        "RP_E_DEFAULT",
        "default_family",
        path("nodes/a.json"),
        "/p",
    );
    assert_eq!(stopped, ExecutionStop::Interrupted.finding());
    assert_eq!(stopped.source_file, None);
}

#[test]
fn reference_expectations_name_their_target_schema() {
    assert_eq!(expected_type(&ReferenceExpectation::Project), "rp/project/v1");
    assert_eq!(
        expected_type(&ReferenceExpectation::NodeKind("claim".into())),
        "rp/node-revision/v1"
    );
    assert_eq!(
        expected_type(&ReferenceExpectation::Relation),
        "rp/scientific-relation-revision/v1"
    );
    assert_eq!(
        expected_type(&ReferenceExpectation::ClaimChain),
        "rp/claim-chain-snapshot/v1"
    );
}

#[test]
fn report_documents_refusals_map_to_codes() {
    assert_eq!(
        report_json_code(ReportJsonError::TooManyNodes),
        ("RP_E_RESOURCE_REPORT_NODES_EXCEEDED", "resource_limit")
    );
    assert_eq!(
        report_json_code(ReportJsonError::DuplicateKey),
        ("RP_E_REPORT_JSON_INVALID", "claim_chain_validation_report")
    );
    let stop = ExecutionStop::Deadline.finding();
    assert_eq!(
        report_json_code(ReportJsonError::Stopped(ExecutionStop::Deadline)),
        (stop.error_code, stop.finding_family)
    );
}

#[test]
fn missing_objects_are_reported_by_id() {
    let f = not_found_finding("node-1");
    assert_eq!(f.error_code, "RP_E_OBJECT_NOT_FOUND");
    assert_eq!(f.finding_family, "object_lookup");
    assert_eq!(f.message, "object node-1 was not found");
    assert_eq!(f.source_file, None);
    assert_eq!(f.json_pointer, "");
}

#[test]
fn project_titles_capitalise_each_slug_word() {
    assert_eq!(project_title("my-research-project"), "My Research Project");
    assert_eq!(project_title("x"), "X");
    assert_eq!(project_title("9-lives"), "9 Lives");
    assert_eq!(project_title(""), "");
}

fn finding(code: &'static str, severity: Severity, file: Option<&str>, pointer: &str) -> Finding {
    Finding::new(code, "test", severity, "m", file.map(path), pointer)
}

#[test]
fn findings_are_presented_by_severity_then_file_then_pointer() {
    let sorted = sort_findings(vec![
        finding("C", Severity::Warning, Some("b.json"), "/x"),
        finding("A", Severity::Error, Some("b.json"), "/y"),
        finding("B", Severity::Error, None, "/z"),
        finding("D", Severity::Error, Some("a.json"), "/a"),
        finding("E", Severity::Error, Some("b.json"), "/a"),
    ]);
    let codes: Vec<&str> = sorted.iter().map(|f| f.error_code).collect();
    assert_eq!(codes, vec!["B", "D", "E", "A", "C"]);
}

#[test]
fn command_results_carry_their_exit_code_and_sorted_findings() {
    let result = CommandResult::new(
        "validate",
        Status::Invalid,
        Some("2024-01-01T00:00:00Z".into()),
        vec![
            finding("W", Severity::Warning, None, ""),
            finding("E", Severity::Error, None, ""),
        ],
        Some(rp_core::report_json::JsonValue::Bool(true)),
    );
    assert_eq!(result.schema, "rp/cli-result/v1");
    assert_eq!(result.command, "validate");
    assert_eq!(result.exit_code, Status::Invalid.exit_code());
    assert_eq!(result.as_of.as_deref(), Some("2024-01-01T00:00:00Z"));
    let codes: Vec<&str> = result.findings.iter().map(|f| f.error_code).collect();
    assert_eq!(codes, vec!["E", "W"]);
    assert_eq!(result.data, Some(rp_core::report_json::JsonValue::Bool(true)));
}

#[test]
fn collected_errors_stop_at_the_allowance_and_keep_order() {
    let mut findings = Findings::new(2);
    findings.collect_errors(vec!["a", "b", "c", "d"], |m| {
        Finding::new("RP_E_X", "test", Severity::Error, m, None, "")
    });
    let messages: Vec<&str> = findings.iter().map(|f| f.message.as_str()).collect();
    assert_eq!(messages, vec!["a", "b"]);
    assert!(findings.had_error());
    assert!(findings.cancelled());

    let mut all = Findings::new(10);
    all.collect_errors(vec!["x", "y"], |m| {
        Finding::new("RP_E_X", "test", Severity::Error, m, None, "")
    });
    assert_eq!(all.len(), 2);
    assert!(!all.cancelled());
}

#[test]
fn findings_of_one_presentation_key_keep_their_order() {
    let first = Finding::new("K", "first", Severity::Error, "one", None, "/p");
    let second = Finding::new("K", "second", Severity::Error, "two", None, "/p");
    let earlier = finding("A", Severity::Error, None, "/a");
    let sorted = sort_findings(vec![first.clone(), earlier.clone(), second.clone()]);
    assert_eq!(sorted, vec![earlier.clone(), first.clone(), second.clone()]);
    let sorted = sort_findings(vec![second.clone(), first.clone(), earlier.clone()]);
    assert_eq!(sorted, vec![earlier, second, first]);
}
