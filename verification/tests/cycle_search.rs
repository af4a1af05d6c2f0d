use rp_core::cycles::{cycle_targets, find_cycle, sort_texts, CycleClass, CycleSearch};
use rp_core::finding::ProjectPath;
use rp_core::index::{ObjectRecord, ProjectIndex};
use rp_core::model::ObjectType;
use rp_core::report_json::JsonValue;

fn text(s: &str) -> JsonValue {
    JsonValue::Text(s.to_string())
}

fn object(members: Vec<(&str, JsonValue)>) -> JsonValue {
    JsonValue::Object(members.into_iter().map(|(k, v)| (k.to_string(), v)).collect())
}

fn record(index: &ProjectIndex, id: &str, object_type: ObjectType, value: JsonValue) -> ObjectRecord {
    ObjectRecord {
        ordinal: index.len(),
        id: id.to_string(),
        logical_id: None,
        object_type,
        source_file: ProjectPath::new(&format!(".research/{id}.yaml")).unwrap(),
        value,
    }
}

fn node_graph(edges: &[(&str, &[&str])]) -> ProjectIndex {
    let mut index = ProjectIndex::new();
    for (id, parents) in edges {
        let items = parents.iter().map(|p| object(vec![("id", text(p))])).collect();
        let value = object(vec![("revision", object(vec![("parents", JsonValue::Array(items))]))]);
        let r = record(&index, id, ObjectType::Node("question".to_string()), value);
        index.insert(r);
    }
    index
}

#[test]
fn cycle_targets_are_built_once_per_active_frame() {
    let leaves: Vec<_> = (0..128).map(|i| format!("b{i:03}")).collect();
    let targets: Vec<_> = leaves.iter().rev().map(String::as_str).collect();
    let mut edges = vec![("a", targets.as_slice())];
    edges.extend(leaves.iter().map(|id| (id.as_str(), &[][..])));
    let index = node_graph(&edges);
    assert_eq!(index.len(), 129);
    assert!(matches!(find_cycle(&index, CycleClass::Node, 1), CycleSearch::Acyclic));
}

#[test]
fn cycle_targets_keep_sorted_order_when_frames_resume() {
    let index = node_graph(&[("a", &["d", "b"]), ("b", &["c"]), ("c", &["b"]), ("d", &["a"])]);
    match find_cycle(&index, CycleClass::Node, 2) {
        CycleSearch::Cycle(id) => assert_eq!(id.as_str(), "b"),
        _ => panic!("expected lexically first cycle target"),
    }
}

#[test]
fn cycle_depth_counts_active_ancestors_not_resumed_siblings() {
    let index = node_graph(&[("a", &["c", "b"]), ("b", &[]), ("c", &["d"]), ("d", &[])]);
    assert!(matches!(find_cycle(&index, CycleClass::Node, 1), CycleSearch::DepthExceeded));
    assert!(matches!(find_cycle(&index, CycleClass::Node, 2), CycleSearch::Acyclic));
    let isolated = node_graph(&[("a", &[])]);
    assert!(matches!(find_cycle(&isolated, CycleClass::Node, 0), CycleSearch::Acyclic));
}

#[test]
fn self_parent_is_a_cycle_at_any_depth() {
    let index = node_graph(&[("a", &["a"])]);
    match find_cycle(&index, CycleClass::Node, 0) {
        CycleSearch::Cycle(id) => assert_eq!(id, "a"),
        _ => panic!("a revision naming itself as parent is a cycle"),
    }
}

#[test]
fn missing_parents_and_other_classes_are_ignored() {
    let index = node_graph(&[("a", &["zz"]), ("b", &["a"])]);
    assert!(matches!(find_cycle(&index, CycleClass::Node, 5), CycleSearch::Acyclic));
    let cyclic = node_graph(&[("a", &["b"]), ("b", &["a"])]);
    assert!(matches!(find_cycle(&cyclic, CycleClass::Relation, 5), CycleSearch::Acyclic));
    assert!(matches!(find_cycle(&cyclic, CycleClass::Node, 5), CycleSearch::Cycle(_)));
}

#[test]
fn thread_hierarchy_cycle_uses_parent_and_fork_origin() {
    let mut index = ProjectIndex::new();
    let t1 = record(&index, "t1", ObjectType::Thread, object(vec![("parent_thread_id", text("t2"))]));
    index.insert(t1);
    let t2 = record(&index, "t2", ObjectType::Thread, object(vec![("forked_from_thread_id", text("t1"))]));
    index.insert(t2);
    match find_cycle(&index, CycleClass::Thread, 4) {
        CycleSearch::Cycle(id) => assert_eq!(id, "t1"),
        _ => panic!("expected a thread cycle"),
    }
    assert!(matches!(find_cycle(&index, CycleClass::Node, 4), CycleSearch::Acyclic));
}

#[test]
fn targets_are_sorted_and_read_per_class() {
    let index = node_graph(&[("a", &["d", "b", "c"])]);
    let o = &index.objects()[0];
    assert_eq!(cycle_targets(o, CycleClass::Node), vec!["b", "c", "d"]);
    assert_eq!(
        sort_texts(vec!["z".to_string(), "a".to_string(), "m".to_string()]),
        vec!["a", "m", "z"]
    );
    let assessment = object(vec![("supersedes_assessments", JsonValue::Array(vec![text("y"), text("x")]))]);
    let mut other = ProjectIndex::new();
    let r = record(&other, "s", ObjectType::Assessment, assessment);
    other.insert(r);
    assert_eq!(cycle_targets(&other.objects()[0], CycleClass::Assessment), vec!["x", "y"]);
}

#[test]
fn a_class_without_members_is_acyclic_under_a_cancelled_budget() {
    let token = std::sync::Arc::new(std::sync::atomic::AtomicBool::new(true));
    let cancelled = rp_core::execution::ExecutionBudget::new(std::time::Duration::from_secs(60), token);
    let mut index = ProjectIndex::with_execution(cancelled);
    let value = object(vec![("revision", object(vec![("parents", JsonValue::Array(vec![]))]))]);
    let r = record(&index, "a", ObjectType::Node("question".to_string()), value);
    index.insert(r);
    assert!(matches!(find_cycle(&index, CycleClass::Thread, 0), CycleSearch::Acyclic));
    assert!(matches!(find_cycle(&index, CycleClass::Node, 0), CycleSearch::Stopped));
}
