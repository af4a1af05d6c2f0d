use rp_core::access::AccessLevel;
use rp_core::finding::{Finding, ProjectPath};
use rp_core::findings::Findings;
use rp_core::index::{ObjectRecord, ProjectIndex};
use rp_core::indexing::{index_objects, ParsedObject};
use rp_core::model::{ObjectType, ReferenceEdge, ReferenceExpectation};
use rp_core::project::{ExpectedLayout, ProjectLimits};
use rp_core::project_access::{
    access_edge, compartment_vocabulary, compartments_are_sorted, compute_access, declared_label, policy_order,
};
use rp_core::report_json::{parse_report_json, JsonValue, ReportJsonLimits};

fn json(text: &str) -> JsonValue {
    parse_report_json(text.as_bytes(), &ReportJsonLimits::default()).unwrap()
}

fn node(id: &str, extra: &str) -> ParsedObject {
    let body = format!(r#"{{"schema":"rp/node-revision/v1","kind":"question","id":"{id}"{extra}}}"#);
    ParsedObject {
        path: ProjectPath::new(&format!(".research/nodes/question/q--{id}.yaml")).unwrap(),
        expected: ExpectedLayout::Node(None),
        value: json(&body),
    }
}

fn indexed(objects: Vec<ParsedObject>) -> ProjectIndex {
    let mut findings = Findings::new(100);
    let index = index_objects(objects, ProjectLimits::default(), &mut findings);
    assert!(findings.as_slice().is_empty(), "{:?}", findings.as_slice());
    index
}

fn codes(findings: &Findings) -> Vec<String> {
    findings.as_slice().iter().map(|f: &Finding| f.error_code.to_string()).collect()
}

fn record(object_type: ObjectType, value: &str) -> ObjectRecord {
    ObjectRecord {
        ordinal: 0,
        id: "x".to_string(),
        logical_id: None,
        object_type,
        source_file: ProjectPath::new(".research/x.yaml").unwrap(),
        value: json(value),
    }
}

fn edge(pointer: &str, target: &str) -> ReferenceEdge {
    ReferenceEdge {
        source_id: "x".to_string(),
        target_id: target.to_string(),
        target_ordinal: None,
        expected: ReferenceExpectation::Node,
        json_pointer: pointer.to_string(),
    }
}

#[test]
fn a_dependency_above_the_declaration_is_reported_through_its_edge() {
    let index = indexed(vec![
        node("n1", r#","access":{"level":"internal","compartments":["a"]},"revision":{"parents":[{"id":"n2"}]}"#),
        node("n2", r#","access":{"level":"restricted","compartments":["a","b"]}"#),
        node("n3", r#","access":{"level":"public","compartments":[]}"#),
    ]);
    let mut findings = Findings::new(100);
    let store = compute_access(&index, &mut findings);
    assert_eq!(store.compartment_names, vec!["a", "b"]);
    assert_eq!(codes(&findings), vec!["RP_E_ACCESS_REVISION_PARENT"]);
    let f = &findings.as_slice()[0];
    assert_eq!(f.finding_family, "access_revision_parent");
    assert_eq!(f.json_pointer, "/access");
    assert_eq!(f.source_file.as_ref().unwrap().as_str(), ".research/nodes/question/q--n1.yaml");
    assert_eq!(
        f.message,
        "declared access does not dominate dependency floor; required level Restricted, missing compartments [\"b\"]"
    );
    let n1 = store.report(0).unwrap();
    assert!(!n1.valid);
    assert_eq!(n1.dependency_count, 1);
    assert_eq!(n1.declared.level, AccessLevel::Internal);
    assert_eq!(n1.required_floor.level, AccessLevel::Restricted);
    assert_eq!(n1.effective.level, AccessLevel::Restricted);
    assert_eq!(n1.effective.compartments, vec!["a", "b"]);
    let n2 = store.report(1).unwrap();
    assert!(n2.valid);
    assert_eq!(n2.dependency_count, 0);
    assert_eq!(n2.effective, n2.declared);
    assert!(store.report(2).unwrap().valid);
    assert!(store.report(3).is_none());
}

#[test]
fn compartment_deficits_keep_the_level_and_name_the_missing_ones() {
    let index = indexed(vec![
        node("n1", r#","access":{"level":"restricted","compartments":["a"]},"test":{"target_revision_ids":["n2"]}"#),
        node("n2", r#","access":{"level":"internal","compartments":["c","d"]}"#),
    ]);
    let mut findings = Findings::new(100);
    let store = compute_access(&index, &mut findings);
    assert_eq!(codes(&findings), vec!["RP_E_ACCESS_COMPARTMENT_MISSING"]);
    assert_eq!(findings.as_slice()[0].finding_family, "access_compartment_drop");
    assert_eq!(
        findings.as_slice()[0].message,
        "declared access does not dominate dependency floor; required level Internal, missing compartments [\"c\", \"d\"]"
    );
    let r = store.report(0).unwrap();
    assert_eq!(r.effective.level, AccessLevel::Restricted);
    assert_eq!(r.effective.compartments, vec!["a", "c", "d"]);
}

#[test]
fn unsorted_compartments_and_missing_labels() {
    let index = indexed(vec![
        node("n1", r#","access":{"level":"public","compartments":["b","a"]}"#),
        node("n2", r#","access":{"level":"secret","compartments":[]}"#),
        node("n3", r#","access":{"level":"public"}"#),
        node("n4", ""),
    ]);
    let mut findings = Findings::new(100);
    let store = compute_access(&index, &mut findings);
    assert_eq!(codes(&findings), vec!["RP_E_ACCESS_COMPARTMENTS_UNSORTED"]);
    assert_eq!(findings.as_slice()[0].json_pointer, "/access/compartments");
    assert_eq!(findings.as_slice()[0].message, "access compartments must be sorted lexicographically");
    assert!(store.report(0).is_some());
    assert!(store.report(1).is_none());
    assert!(store.report(2).is_none());
    assert!(store.report(3).is_none());
}

#[test]
fn vocabulary_and_labels_come_from_access_values() {
    let project = record(ObjectType::Project, r#"{"access_defaults":{"level":"internal","compartments":["z","m"]},"access":{"level":"public","compartments":["q"]}}"#);
    let other = record(ObjectType::Thread, r#"{"access":{"level":"exclusive","compartments":["m","a",7]}}"#);
    let vocabulary = compartment_vocabulary(&[project, other]);
    assert_eq!(vocabulary, vec!["a", "m", "z"]);
    let project = record(ObjectType::Project, r#"{"access_defaults":{"level":"internal","compartments":["z","m"]}}"#);
    let label = declared_label(&project, &vocabulary).unwrap();
    assert_eq!(label.level, AccessLevel::Internal);
    assert_eq!(label.compartments.indexes(), vec![1, 2]);
    assert!(declared_label(&record(ObjectType::Thread, r#"{"access":{"level":"internal"}}"#), &vocabulary).is_none());
    assert!(compartments_are_sorted(&json(r#"{"access":{"compartments":["a","b",1,"c"]}}"#)));
    assert!(!compartments_are_sorted(&json(r#"{"access":{"compartments":["a","a"]}}"#)));
    assert!(compartments_are_sorted(&json(r#"{"access_defaults":{"compartments":["b","a"]}}"#)));
}

#[test]
fn edges_are_named_and_ordered_by_policy() {
    let relation = record(ObjectType::Relation, "{}");
    let e = access_edge(&relation, "/from_revision");
    assert_eq!((e.order, e.label.as_str()), (6, "relation.from_revision"));
    let e = access_edge(&relation, "/revision/parents/0/id");
    assert_eq!((e.order, e.label.as_str()), (8, "relation.revision.parents"));
    let e = access_edge(&relation, "/source/artifacts/2");
    assert_eq!((e.order, e.label.as_str()), (3, "source.artifacts"));
    let e = access_edge(&relation, "/extensions/x/y");
    assert_eq!((e.order, e.label.as_str()), (39, "extension_schema_declared_semantic_references"));
    let e = access_edge(&relation, "/elsewhere");
    assert_eq!((e.order, e.label.as_str()), (40, "/elsewhere"));
    let chain = record(ObjectType::ClaimChain, "{}");
    assert_eq!(access_edge(&chain, "/node_revisions/3").label, "claim_chain.node_revisions");
    let ordered = policy_order(
        &relation,
        &[edge("/to_revision", "b"), edge("/from_revision", "z"), edge("/source/revisions/0", "m"), edge("/to_revision", "a")],
    );
    let view: Vec<(&str, &str)> = ordered.iter().map(|e| (e.json_pointer.as_str(), e.target_id.as_str())).collect();
    assert_eq!(
        view,
        vec![("/source/revisions/0", "m"), ("/from_revision", "z"), ("/to_revision", "a"), ("/to_revision", "b")]
    );
}

#[test]
fn reports_exports_and_explanations_are_read_through_the_index() {
    let mut index = indexed(vec![
        node(
            "n1",
            r#","access":{"level":"internal","compartments":["a"]},"revision":{"parents":[{"id":"n2"}]},"test":{"target_revision_ids":["n3"]}"#,
        ),
        node("n2", r#","access":{"level":"restricted","compartments":["a","b"]},"revision":{"parents":[{"id":"n4"}]}"#),
        node("n3", r#","access":{"level":"public","compartments":[]}"#),
        node("n4", r#","access":{"level":"exclusive","compartments":[]}"#),
        node("n5", ""),
    ]);
    assert!(index.access_report("n1").is_none());
    let mut findings = Findings::new(100);
    let store = compute_access(&index, &mut findings);
    index.set_access(store);
    let report = index.access_report("n1").unwrap();
    assert_eq!(report.dependency_count, 3);
    assert_eq!(report.effective.level, AccessLevel::Exclusive);
    assert_eq!(report.effective.compartments, vec!["a", "b"]);
    assert!(index.access_report("n5").is_none());
    assert!(index.access_report("missing").is_none());

    let wide = rp_core::access::ExportRequest {
        level_ceiling: AccessLevel::Exclusive,
        allowed_compartments: vec!["a".to_string(), "b".to_string()],
    };
    assert!(index.export_check("n1", wide.clone()).unwrap().eligible);
    let narrow = rp_core::access::ExportRequest { level_ceiling: AccessLevel::Restricted, ..wide.clone() };
    let decision = index.export_check("n1", narrow).unwrap();
    assert!(!decision.eligible);
    assert_eq!(decision.effective_access.level, AccessLevel::Exclusive);
    assert!(index.export_check("n5", wide).is_none());

    let steps = index.access_explanation("n1").unwrap();
    let view: Vec<(&str, &str, &str)> =
        steps.iter().map(|d| (d.from_id.as_str(), d.edge.as_str(), d.to_id.as_str())).collect();
    assert_eq!(
        view,
        vec![
            ("n1", "revision.parents", "n2"),
            ("n1", "node.test.target_revision_ids", "n3"),
            ("n2", "revision.parents", "n4"),
        ]
    );
    assert!(index.access_explanation("n4").unwrap().is_empty());
    assert!(index.access_explanation("n5").is_none());
    assert_eq!(index.access_explanation_checked("n1").unwrap().unwrap().len(), 3);
    assert_eq!(index.ids(), vec!["n1", "n2", "n3", "n4", "n5"]);
}
