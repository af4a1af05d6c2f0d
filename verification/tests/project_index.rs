use rp_core::finding::{Finding, ProjectPath};
use rp_core::findings::Findings;
use rp_core::index::{object_references, ObjectRecord, ProjectIndex};
use rp_core::indexing::{filename_matches_id, index_objects, object_type_of, ParsedObject};
use rp_core::model::ObjectType;
use rp_core::project::{ExpectedLayout, ProjectLimits};
use rp_core::report_json::{parse_report_json, JsonValue, ReportJsonLimits};
use rp_core::semantics::validate_references;

fn json(text: &str) -> JsonValue {
    parse_report_json(text.as_bytes(), &ReportJsonLimits::default()).unwrap()
}

fn path(p: &str) -> ProjectPath {
    ProjectPath::new(p).unwrap()
}

fn node(file: &str, body: &str) -> ParsedObject {
    ParsedObject { path: path(file), expected: ExpectedLayout::Node(None), value: json(body) }
}

fn codes(findings: &Findings) -> Vec<String> {
    findings.as_slice().iter().map(|f: &Finding| f.error_code.to_string()).collect()
}

fn record(index: &ProjectIndex, id: &str, logical: Option<&str>, value: &str) -> ObjectRecord {
    ObjectRecord {
        ordinal: index.len(),
        id: id.to_string(),
        logical_id: logical.map(|l| l.to_string()),
        object_type: ObjectType::Node("question".to_string()),
        source_file: path(&format!(".research/nodes/question/q--{id}.yaml")),
        value: json(value),
    }
}

#[test]
fn filename_suffix_after_the_last_double_hyphen_is_the_id() {
    assert!(filename_matches_id(&path(".research/nodes/question/topic--n1.yaml"), "n1"));
    assert!(filename_matches_id(&path("a-b--n1.yaml"), "n1"));
    assert!(!filename_matches_id(&path("a--b--n1.yaml"), "n1"));
    assert!(filename_matches_id(&path("a--b--n1.yaml"), "b--n1") == false);
    assert!(!filename_matches_id(&path("Topic--n1.yaml"), "n1"));
    assert!(!filename_matches_id(&path(".research/nodes/question/topic--n1.yaml"), "n2"));
    assert!(!filename_matches_id(&path(".research/nodes/question/topic-n1.yaml"), "n1"));
    assert!(!filename_matches_id(&path(".research/nodes/question/topic--n1.yml"), "n1"));
    assert!(!filename_matches_id(&path(".research/nodes/question/--n1.yaml"), "n1"));
    assert!(!filename_matches_id(&path(".research/nodes/question/-topic--n1.yaml"), "n1"));
}

#[test]
fn object_types_come_from_schema_and_node_kind() {
    assert_eq!(
        object_type_of(&json(r#"{"schema":"rp/node-revision/v1","kind":"question"}"#)),
        Some(ObjectType::Node("question".to_string()))
    );
    assert_eq!(object_type_of(&json(r#"{"schema":"rp/research-thread/v1"}"#)), Some(ObjectType::Thread));
    assert_eq!(object_type_of(&json(r#"{"schema":"rp/node-revision/v1"}"#)), None);
    assert_eq!(object_type_of(&json(r#"{"schema":"rp/unknown/v1"}"#)), None);
    assert_eq!(object_type_of(&json(r#"{"id":"x"}"#)), None);
}

#[test]
fn index_is_a_map_from_id_to_record_in_ascending_order() {
    let mut index = ProjectIndex::new();
    assert!(index.is_empty());
    let b = record(&index, "b", None, "{}");
    assert!(index.insert(b).is_none());
    let a = record(&index, "a", None, "{}");
    assert!(index.insert(a).is_none());
    assert_eq!(index.len(), 2);
    assert_eq!(index.position("a"), Some(0));
    assert_eq!(index.position("b"), Some(1));
    assert_eq!(index.position("c"), None);
    let replacement = record(&index, "b", Some("lineage"), r#"{"x":1}"#);
    let previous = index.insert(replacement).unwrap();
    assert_eq!(previous.id, "b");
    assert_eq!(previous.logical_id, None);
    assert_eq!(index.len(), 2);
    assert_eq!(index.get("b").unwrap().logical_id.as_deref(), Some("lineage"));
    assert!(index.get("c").is_none());
    let ids: Vec<&str> = index.objects().iter().map(|o| o.id.as_str()).collect();
    assert_eq!(ids, vec!["a", "b"]);
    assert!(index.references_from("a").is_empty());
}

#[test]
fn lineage_heads_are_members_no_object_names_as_parent() {
    let mut index = ProjectIndex::new();
    let r1 = record(&index, "n1", Some("L"), r#"{"revision":{"parents":[]}}"#);
    index.insert(r1);
    let r2 = record(&index, "n2", Some("L"), r#"{"revision":{"parents":[{"id":"n1"}]}}"#);
    index.insert(r2);
    let r3 = record(&index, "n3", Some("M"), r#"{"revision":{"parents":[]}}"#);
    index.insert(r3);
    index.derive_heads();
    assert_eq!(index.heads_for("L"), vec!["n2"]);
    assert_eq!(index.heads_for("M"), vec!["n3"]);
    assert!(index.heads_for("N").is_empty());
}

#[test]
fn identity_problems_are_reported_in_object_order() {
    let objects = vec![
        node(".research/nodes/question/q--n1.yaml", r#"{"schema":"rp/node-revision/v1","kind":"question","id":"n1"}"#),
        node(".research/nodes/question/q--other.yaml", r#"{"schema":"rp/node-revision/v1","kind":"question","id":"n2"}"#),
        node(".research/nodes/question/q--n3.yaml", r#"{"schema":"rp/node-revision/v1","kind":"question","id":"n3","record_state":"draft"}"#),
        node(".research/nodes/question/z--n1.yaml", r#"{"schema":"rp/node-revision/v1","kind":"question","id":"n1"}"#),
        ParsedObject {
            path: path(".research/threads/t--t1.yaml"),
            expected: ExpectedLayout::Relation,
            value: json(r#"{"schema":"rp/research-thread/v1","id":"t1"}"#),
        },
    ];
    let mut findings = Findings::new(100);
    let index = index_objects(objects, ProjectLimits::default(), &mut findings);
    assert_eq!(
        codes(&findings),
        vec![
            "RP_E_OBJECT_FILENAME_ID_MISMATCH",
            "RP_E_CANONICAL_DRAFT_FORBIDDEN",
            "RP_E_OBJECT_DUPLICATE_ID",
            "RP_E_REFERENCE_TYPE_MISMATCH",
        ]
    );
    let all = findings.as_slice();
    assert_eq!(all[0].json_pointer, "/id");
    assert_eq!(all[1].json_pointer, "/record_state");
    assert_eq!(all[2].message, "object ID n1 appears in more than one canonical file");
    assert_eq!(all[2].source_file.as_ref().unwrap().as_str(), ".research/nodes/question/z--n1.yaml");
    assert_eq!(all[3].message, "canonical layout expects ScientificRelationRevision, but object is research thread");
    assert_eq!(all[3].json_pointer, "/schema");
    assert_eq!(index.len(), 4);
    let first = index.get("n1").unwrap();
    assert_eq!(first.source_file.as_str(), ".research/nodes/question/q--n1.yaml");
    let ordinals: Vec<usize> = index.objects().iter().map(|o| o.ordinal).collect();
    assert_eq!(ordinals, vec![0, 1, 2, 3]);
}

#[test]
fn missing_and_mistyped_references_are_reported_at_their_pointers() {
    let objects = vec![
        node(
            ".research/nodes/question/q--n1.yaml",
            r#"{"schema":"rp/node-revision/v1","kind":"question","id":"n1","revision":{"parents":[{"id":"gone"},{"id":"t1"}]},"scope":{"research_run_id":"run9"}}"#,
        ),
        ParsedObject {
            path: path(".research/threads/t--t1.yaml"),
            expected: ExpectedLayout::Thread,
            value: json(r#"{"schema":"rp/research-thread/v1","id":"t1"}"#),
        },
    ];
    let mut findings = Findings::new(100);
    let index = index_objects(objects, ProjectLimits::default(), &mut findings);
    assert_eq!(
        codes(&findings),
        vec![
            "RP_E_DANGLING_REVISION_REFERENCE",
            "RP_E_REFERENCE_TYPE_MISMATCH",
            "RP_E_REFERENCE_NOT_FOUND",
        ]
    );
    let all = findings.as_slice();
    assert_eq!(all[0].json_pointer, "/revision/parents/0/id");
    assert_eq!(all[0].message, "exact revision gone was not found");
    assert_eq!(all[1].json_pointer, "/revision/parents/1/id");
    assert!(all[1].message.starts_with("reference expects "));
    assert_eq!(all[2].json_pointer, "/scope/research_run_id");
    assert_eq!(all[2].message, "referenced object run9 was not found");
    assert_eq!(all[2].source_file.as_ref().unwrap().as_str(), ".research/nodes/question/q--n1.yaml");
    let from_n1: Vec<&str> = index.references_from("n1").iter().map(|e| e.target_id.as_str()).collect();
    assert_eq!(from_n1.len(), 3);
    assert!(from_n1.contains(&"gone") && from_n1.contains(&"t1") && from_n1.contains(&"run9"));
    assert!(index.references_from("t1").is_empty());
}

#[test]
fn declared_references_follow_rule_order() {
    let mut index = ProjectIndex::new();
    let r = record(
        &index,
        "n1",
        None,
        r#"{"source":{"artifacts":["a1"]},"revision":{"parents":[{"id":"p1"},{"nope":1},{"id":"p2"}]},"test":{"method_revision":"m1"}}"#,
    );
    index.insert(r);
    let edges = object_references(&index.objects()[0]);
    let view: Vec<(&str, &str)> = edges.iter().map(|e| (e.target_id.as_str(), e.json_pointer.as_str())).collect();
    assert_eq!(
        view,
        vec![
            ("a1", "/source/artifacts/0"),
            ("p1", "/revision/parents/0/id"),
            ("p2", "/revision/parents/2/id"),
            ("m1", "/test/method_revision"),
        ]
    );
    assert!(edges.iter().all(|e| e.source_id == "n1"));
    let mut findings = Findings::new(10);
    validate_references(&index, edges.as_slice(), &mut findings);
    assert_eq!(
        codes(&findings),
        vec![
            "RP_E_REFERENCE_NOT_FOUND",
            "RP_E_DANGLING_REVISION_REFERENCE",
            "RP_E_DANGLING_REVISION_REFERENCE",
            "RP_E_DANGLING_REVISION_REFERENCE",
        ]
    );
}

#[test]
fn lineage_parents_must_share_lineage_and_kind() {
    let objects = vec![
        node(".research/nodes/question/q--n1.yaml", r#"{"schema":"rp/node-revision/v1","kind":"question","id":"n1","logical_id":"L"}"#),
        node(
            ".research/nodes/question/q--n2.yaml",
            r#"{"schema":"rp/node-revision/v1","kind":"hypothesis","id":"n2","logical_id":"M","revision":{"parents":[{"id":"n1"}]}}"#,
        ),
    ];
    let mut findings = Findings::new(100);
    let index = index_objects(objects, ProjectLimits::default(), &mut findings);
    assert_eq!(
        codes(&findings),
        vec!["RP_E_NODE_LINEAGE_LOGICAL_ID_MISMATCH", "RP_E_NODE_LINEAGE_KIND_MISMATCH"]
    );
    assert!(findings.as_slice().iter().all(|f| f.json_pointer == "/revision/parents/0/id"));
    assert_eq!(index.heads_for("M"), vec!["n2"]);
    assert!(index.heads_for("L").is_empty());
}

#[test]
fn revision_cycles_are_reported_once_per_graph() {
    let objects = vec![
        node(
            ".research/nodes/question/q--a.yaml",
            r#"{"schema":"rp/node-revision/v1","kind":"question","id":"a","revision":{"parents":[{"id":"b"}]}}"#,
        ),
        node(
            ".research/nodes/question/q--b.yaml",
            r#"{"schema":"rp/node-revision/v1","kind":"question","id":"b","revision":{"parents":[{"id":"a"}]}}"#,
        ),
    ];
    let mut findings = Findings::new(100);
    index_objects(objects, ProjectLimits::default(), &mut findings);
    assert_eq!(codes(&findings), vec!["RP_E_REVISION_DAG_CYCLE"]);
    assert_eq!(findings.as_slice()[0].message, "node revision lineage contains a cycle");
}

#[test]
fn graph_limits_stop_indexing_with_one_resource_finding() {
    let two = || {
        vec![
            node(
                ".research/nodes/question/q--n1.yaml",
                r#"{"schema":"rp/node-revision/v1","kind":"question","id":"n1","revision":{"parents":[{"id":"n2"}]}}"#,
            ),
            node(".research/nodes/question/q--n2.yaml", r#"{"schema":"rp/node-revision/v1","kind":"question","id":"n2"}"#),
        ]
    };
    let mut nodes = ProjectLimits::default();
    nodes.graph_nodes = 1;
    let mut findings = Findings::new(100);
    let index = index_objects(two(), nodes, &mut findings);
    assert_eq!(codes(&findings), vec!["RP_E_RESOURCE_GRAPH_NODES_EXCEEDED"]);
    assert_eq!(findings.as_slice()[0].message, "graph node limit exceeded");
    assert!(index.is_empty());

    let mut edges = ProjectLimits::default();
    edges.graph_edges = 0;
    let mut findings = Findings::new(100);
    let index = index_objects(two(), edges, &mut findings);
    assert_eq!(codes(&findings), vec!["RP_E_RESOURCE_GRAPH_EDGES_EXCEEDED"]);
    assert!(index.is_empty());

    let mut exact = ProjectLimits::default();
    exact.graph_nodes = 2;
    exact.graph_edges = 1;
    let mut findings = Findings::new(100);
    let index = index_objects(two(), exact, &mut findings);
    assert!(codes(&findings).is_empty());
    assert_eq!(index.len(), 2);
}
