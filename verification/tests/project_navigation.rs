use rp_core::finding::ProjectPath;
use rp_core::findings::Findings;
use rp_core::index::ProjectIndex;
use rp_core::indexing::{index_objects, index_step, ParsedObject};
use rp_core::navigation::{FreshnessStatus, NavigationError, QueryOptions};
use rp_core::project::{ExpectedLayout, ProjectLimits};
use rp_core::project_access::compute_access;
use rp_core::report_json::{parse_report_json, JsonValue, ReportJsonLimits};

fn json(text: &str) -> JsonValue {
    parse_report_json(text.as_bytes(), &ReportJsonLimits::default()).unwrap()
}

fn object(schema: &str, layout: ExpectedLayout, id: &str, extra: &str) -> ParsedObject {
    let body = format!(r#"{{"schema":"{schema}","id":"{id}"{extra}}}"#);
    ParsedObject {
        path: ProjectPath::new(&format!(".research/x/o--{id}.yaml")).unwrap(),
        expected: layout,
        value: json(&body),
    }
}

fn node(id: &str, kind: &str, extra: &str) -> ParsedObject {
    object("rp/node-revision/v1", ExpectedLayout::Node(None), id, &format!(r#","kind":"{kind}"{extra}"#))
}

fn project(objects: Vec<ParsedObject>) -> ProjectIndex {
    let mut findings = Findings::new(100);
    let mut index = index_objects(objects, ProjectLimits::default(), &mut findings);
    let mut access = Findings::new(100);
    let store = compute_access(&index, &mut access);
    index.set_access(store);
    index
}

const POLICY: &str = r#"{"rules":[
  {"id":"r1","selector":{"tags_any":["t"]},"required_checks":["review-deadline"]},
  {"id":"r2","selector":{"tags_any":["s"]},"required_checks":["external-source-version"],"invalidates_on_change":true},
  {"id":"r3","selector":{"tags_any":["a"]},"required_checks":["artifact-digest"]},
  {"id":"r4","selector":{"tags_any":["t","q"]},"required_checks":[]}
]}"#;

fn freshness_project() -> ProjectIndex {
    let mut index = project(vec![
        node("n1", "Question", r#","tags":["t"],"temporal":{"review_due_at":"2030-01-01T00:00:00Z"}"#),
        node("n2", "Question", r#","tags":["t"]"#),
        node("n3", "Question", r#","tags":["x"]"#),
        node("n4", "Question", r#","tags":["t"],"temporal":{"effective_until":"2020-01-01T00:00:00Z","review_due_at":"2030-01-01T00:00:00Z"}"#),
        node("n5", "Question", r#","tags":["s"],"source":{"external_references":["e1"]}"#),
        node("n6", "Question", r#","tags":["a"],"source":{"artifacts":["art1"]}"#),
        object(
            "rp/external-reference/v1",
            ExpectedLayout::ExternalReference,
            "e1",
            r#","type":"doi","canonical_uri":"u","source_version":{"identifier":"v1","released_at":"2020-01-01T00:00:00Z"}"#,
        ),
        object(
            "rp/external-reference/v1",
            ExpectedLayout::ExternalReference,
            "e2",
            r#","type":"doi","canonical_uri":"u","source_version":{"identifier":"v2","released_at":"2021-01-01T00:00:00Z"}"#,
        ),
    ]);
    index.set_freshness_policy(Some(json(POLICY)));
    index
}

#[test]
fn freshness_follows_the_policy_rules() {
    let index = freshness_project();
    let at = |id: &str, when: &str| index.freshness(id, when).unwrap();
    let fresh = at("n1", "2025-06-01T00:00:00Z");
    assert_eq!(fresh.status, FreshnessStatus::Fresh);
    assert_eq!(fresh.applicable_rules, vec!["r1", "r4"]);
    assert_eq!(at("n1", "2030-01-01T00:00:00Z").status, FreshnessStatus::ReviewDue);
    assert_eq!(at("n2", "2025-06-01T00:00:00Z").status, FreshnessStatus::Unknown);
    let untagged = at("n3", "2025-06-01T00:00:00Z");
    assert_eq!(untagged.status, FreshnessStatus::Unknown);
    assert!(untagged.applicable_rules.is_empty());
    assert_eq!(at("n4", "2025-06-01T00:00:00Z").status, FreshnessStatus::Stale);
    assert_eq!(at("n5", "2020-06-01T00:00:00Z").status, FreshnessStatus::Fresh);
    assert_eq!(at("n5", "2021-06-01T00:00:00Z").status, FreshnessStatus::Stale);
    assert_eq!(at("n6", "2025-06-01T00:00:00Z").status, FreshnessStatus::Unknown);
    assert_eq!(index.freshness("n1", "yesterday"), Err(NavigationError::InvalidAsOf));
    assert_eq!(index.freshness("zz", "2025-06-01T00:00:00Z"), Err(NavigationError::NotFound));
}

#[test]
fn verified_artifacts_and_missing_policy() {
    let mut index = freshness_project();
    assert!(!index.artifact_verified("art1"));
    index.set_verified_artifacts(vec!["art1".to_string()]);
    assert!(index.artifact_verified("art1"));
    assert_eq!(index.freshness("n6", "2025-06-01T00:00:00Z").unwrap().status, FreshnessStatus::Fresh);
    index.set_freshness_policy(None);
    let none = index.freshness("n1", "2025-06-01T00:00:00Z").unwrap();
    assert_eq!(none.status, FreshnessStatus::Unknown);
    assert!(none.applicable_rules.is_empty());
}

fn thread_project() -> ProjectIndex {
    project(vec![
        object("rp/research-thread/v1", ExpectedLayout::Thread, "t1", r#","title":"Main","status":"open""#),
        object("rp/research-thread/v1", ExpectedLayout::Thread, "t2", r#","parent_thread_id":"t1""#),
        object("rp/research-thread/v1", ExpectedLayout::Thread, "t3", r#","parent_thread_id":"t1""#),
        node("n1", "Question", r#","logical_id":"L""#),
        node("n2", "Question", r#","logical_id":"L","created_at":"2024-01-01T00:00:00Z","revision":{"parents":[{"id":"n1"}]}"#),
        node("n3", "Question", r#","logical_id":"L","created_at":"2023-01-01T00:00:00Z","revision":{"parents":[{"id":"n1"}]}"#),
        node("b1", "Blocker", r#","logical_id":"B""#),
        object("rp/thread-binding/v1", ExpectedLayout::ThreadBinding, "tb2", r#","thread_id":"t1","target":{"id":"n2"},"role":"focus""#),
        object("rp/thread-binding/v1", ExpectedLayout::ThreadBinding, "tb1", r#","thread_id":"t1","target":{"id":"n2"},"role":"context""#),
        object("rp/thread-binding/v1", ExpectedLayout::ThreadBinding, "tb3", r#","thread_id":"t2","target":{"id":"n3"}"#),
    ])
}

#[test]
fn threads_are_listed_with_binding_and_child_counts() {
    let index = thread_project();
    let list = index.thread_list_checked(10).unwrap();
    assert_eq!(list.returned_count, 3);
    let t1 = &list.threads[0];
    assert_eq!((t1.id, t1.binding_count, t1.child_count), ("t1", 2, 2));
    assert_eq!(t1.title, Some(&JsonValue::Text("Main".to_string())));
    assert_eq!((list.threads[1].id, list.threads[1].binding_count, list.threads[1].child_count), ("t2", 1, 0));
    assert!(list.threads[2].title.is_none());
    assert_eq!(index.thread_list(2).returned_count, 2);
    assert_eq!(index.thread_list(0).returned_count, 0);
}

#[test]
fn thread_bindings_are_ordered_by_target_role_and_id() {
    let index = thread_project();
    let shown = index.thread_show("t1", "2025-01-01T00:00:00Z").unwrap();
    assert_eq!(shown.thread.get("title").and_then(|t| t.as_str()), Some("Main"));
    let ids: Vec<&str> = shown.bindings.iter().map(|b| b.get("id").unwrap().as_str().unwrap()).collect();
    assert_eq!(ids, vec!["tb1", "tb2"]);
    assert!(matches!(index.thread_show("n1", "2025-01-01T00:00:00Z"), Err(NavigationError::NotFound)));
    assert!(matches!(index.thread_show("t1", "soon"), Err(NavigationError::InvalidAsOf)));
}

#[test]
fn history_orders_revisions_by_creation_and_names_the_heads() {
    let index = thread_project();
    let history = index.history("L").unwrap();
    assert_eq!(history.logical_id, "L");
    let ids: Vec<&str> = history.revisions.iter().map(|v| v.get("id").unwrap().as_str().unwrap()).collect();
    assert_eq!(ids, vec!["n1", "n3", "n2"]);
    assert_eq!(history.heads, vec!["n2", "n3"]);
    assert!(matches!(index.history("nothing"), Err(NavigationError::NotFound)));
}

#[test]
fn overview_counts_kinds_forks_and_current_blockers() {
    let index = thread_project();
    let overview = index.overview("2025-01-01T00:00:00Z").unwrap();
    assert_eq!(
        overview.object_counts,
        vec![
            ("node_revision".to_string(), 4),
            ("research_thread".to_string(), 3),
            ("thread_binding".to_string(), 3),
        ]
    );
    assert_eq!(overview.unresolved_forks, vec!["L"]);
    assert_eq!(overview.blockers, vec!["b1"]);
    assert!(overview.next_actions.is_empty());
    assert_eq!(overview.freshness_counts.unknown, 7);
    assert_eq!(overview.freshness_counts.fresh, 0);
    assert!(matches!(index.overview("never"), Err(NavigationError::InvalidAsOf)));
}

#[test]
fn queries_filter_by_kind_thread_and_freshness_and_truncate() {
    let index = thread_project();
    let options = |kind: Option<&str>, thread: Option<&str>, limit: usize| QueryOptions {
        kind: kind.map(str::to_string),
        thread_id: thread.map(str::to_string),
        freshness: None,
        as_of: "2025-01-01T00:00:00Z".to_string(),
        limit,
    };
    let all = index.query(options(None, None, 100)).unwrap();
    assert_eq!(all.returned_count, 10);
    assert!(!all.truncated);
    let questions = index.query(options(Some("Question"), None, 2)).unwrap();
    let ids: Vec<&str> = questions.rows.iter().map(|r| r.id).collect();
    assert_eq!(ids, vec!["n1", "n2"]);
    assert!(questions.truncated);
    assert_eq!(questions.rows[0].logical_id, Some("L"));
    let bound = index.query(options(None, Some("t1"), 10)).unwrap();
    let ids: Vec<&str> = bound.rows.iter().map(|r| r.id).collect();
    assert_eq!(ids, vec!["n2"]);
    let mut stale = options(None, None, 10);
    stale.freshness = Some(FreshnessStatus::Stale);
    assert_eq!(index.query(stale).unwrap().returned_count, 0);
    assert!(matches!(index.query(options(None, None, 0)), Err(NavigationError::InvalidLimit)));
    assert!(matches!(index.query(options(None, None, 100_001)), Err(NavigationError::InvalidLimit)));
    let mut bad_time = options(None, None, 10);
    bad_time.as_of = "later".to_string();
    assert!(matches!(index.query(bad_time), Err(NavigationError::InvalidAsOf)));
}

#[test]
fn show_derives_heads_targets_and_access() {
    let index = thread_project();
    let shown = index.show("n2", "2025-01-01T00:00:00Z").unwrap();
    assert_eq!(shown.object.get("id").and_then(|v| v.as_str()), Some("n2"));
    assert!(shown.is_head);
    assert_eq!(shown.lineage_heads, vec!["n2", "n3"]);
    assert_eq!(shown.freshness, FreshnessStatus::Unknown);
    assert_eq!(shown.thread_binding_ids, vec!["tb1", "tb2"]);
    assert!(shown.assessment_ids.is_empty());
    assert!(shown.effective_access.is_none());
    let parent = index.show("n1", "2025-01-01T00:00:00Z").unwrap();
    assert!(!parent.is_head);
    assert!(matches!(index.show("zz", "2025-01-01T00:00:00Z"), Err(NavigationError::NotFound)));
    assert!(matches!(index.show("n1", "bad"), Err(NavigationError::InvalidAsOf)));
}

#[test]
fn diff_lists_changes_by_pointer_in_key_order() {
    let index = project(vec![
        node("d1", "Question", r#","title":"A","tags":["x","y"],"meta":{"a/b":1,"c":2}"#),
        node("d2", "Question", r#","title":"B","tags":["x"],"meta":{"a/b":1.0,"c":3,"d":4},"extra":null"#),
    ]);
    let diff = index.diff("d1", "d2").unwrap();
    assert_eq!(diff.revision_id_a, "d1");
    assert_eq!(diff.revision_id_b, "d2");
    let paths: Vec<&str> = diff.changes.iter().map(|c| c.path.as_str()).collect();
    assert_eq!(paths, vec!["/extra", "/id", "/meta/a~1b", "/meta/c", "/meta/d", "/tags/1", "/title"]);
    assert!(diff.changes[0].before.is_none());
    assert_eq!(diff.changes[0].after, Some(&JsonValue::Null));
    assert_eq!(diff.changes[5].before, Some(&JsonValue::Text("y".to_string())));
    assert!(diff.changes[5].after.is_none());
    assert!(index.diff("d1", "d1").unwrap().changes.is_empty());
    assert!(matches!(index.diff("d1", "zz"), Err(NavigationError::NotFound)));
    assert!(matches!(index.diff("zz", "d1"), Err(NavigationError::NotFound)));
}

#[test]
fn an_indexing_step_adds_a_new_id_and_reports_a_repeated_one() {
    let mut index = ProjectIndex::new();
    let mut findings = Findings::new(100);
    index_step(&mut index, node("nod_a", "Question", ""), &mut findings);
    assert_eq!(index.len(), 1);
    assert!(index.get("nod_a").is_some());
    let before = findings.as_slice().len();
    index_step(&mut index, node("nod_a", "Hypothesis", ""), &mut findings);
    assert_eq!(index.len(), 1);
    let added = &findings.as_slice()[before..];
    assert!(added.iter().any(|f| f.error_code == "RP_E_OBJECT_DUPLICATE_ID"));
}
