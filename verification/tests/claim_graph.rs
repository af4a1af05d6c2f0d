use rp_core::claim::{directed_cycle, evidential_relation, path_to_target, weak_component_count};
use rp_core::execution::ExecutionBudget;
use rp_core::graph::{component_count, has_directed_cycle, reach_from};

fn ids(v: &[&str]) -> Vec<String> {
    v.iter().map(|s| s.to_string()).collect()
}

fn pairs(v: &[(&str, &str)]) -> Vec<(String, String)> {
    v.iter().map(|(a, b)| (a.to_string(), b.to_string())).collect()
}

#[test]
fn breadth_first_search_marks_exactly_the_reachable_nodes() {
    let adj = vec![vec![1], vec![2], vec![], vec![0]];
    let seen = reach_from(&adj, 0, &ExecutionBudget::default()).unwrap();
    assert_eq!(seen, vec![true, true, true, false]);
}

#[test]
fn components_are_counted_once_each() {
    let adj = vec![vec![1], vec![0], vec![], vec![4], vec![3]];
    assert_eq!(component_count(&adj, &ExecutionBudget::default()), Some(3));
    let budget = ExecutionBudget::default();
    assert_eq!(
        weak_component_count(
            &ids(&["a", "b", "c", "a"]),
            &pairs(&[("b", "a"), ("x", "c")]),
            &budget
        ),
        Some(2)
    );
    assert_eq!(
        weak_component_count(&ids(&["a", "b", "c"]), &pairs(&[("a", "b"), ("c", "b")]), &budget),
        Some(1)
    );
    assert_eq!(weak_component_count(&ids(&[]), &pairs(&[]), &budget), Some(0));
}

#[test]
fn kahn_finds_cycles_and_repeated_nodes() {
    let budget = ExecutionBudget::default();
    assert_eq!(has_directed_cycle(3, &vec![(0, 1), (1, 2)], &budget), Some(false));
    assert_eq!(has_directed_cycle(3, &vec![(0, 1), (1, 2), (2, 1)], &budget), Some(true));
    assert_eq!(has_directed_cycle(2, &vec![(5, 1)], &budget), Some(true));
    assert_eq!(
        directed_cycle(&ids(&["a", "b", "c"]), &pairs(&[("a", "b"), ("b", "c")]), &budget),
        Some(false)
    );
    assert_eq!(
        directed_cycle(&ids(&["a", "b"]), &pairs(&[("a", "b"), ("b", "a")]), &budget),
        Some(true)
    );
    assert_eq!(
        directed_cycle(&ids(&["a", "b", "a"]), &pairs(&[("a", "b")]), &budget),
        Some(true)
    );
    assert_eq!(
        directed_cycle(&ids(&["a", "b"]), &pairs(&[("a", "z"), ("z", "a")]), &budget),
        Some(true)
    );
}

#[test]
fn target_paths_need_an_allowed_edge_somewhere() {
    let budget = ExecutionBudget::default();
    let edges = pairs(&[("e", "m"), ("m", "t"), ("x", "t")]);
    assert_eq!(path_to_target("e", "t", &edges, &vec![true; 3], &budget), Some(true));
    assert_eq!(
        path_to_target("e", "t", &edges, &vec![false, true, false], &budget),
        Some(true)
    );
    assert_eq!(
        path_to_target("e", "t", &edges, &vec![false, false, true], &budget),
        Some(false)
    );
    assert_eq!(path_to_target("t", "e", &edges, &vec![true; 3], &budget), Some(false));
    assert_eq!(path_to_target("e", "e", &edges, &vec![true; 3], &budget), Some(false));
    assert_eq!(path_to_target("e", "nowhere", &edges, &vec![true; 3], &budget), Some(false));
    let cycle = pairs(&[("a", "a")]);
    assert_eq!(path_to_target("a", "a", &cycle, &vec![true], &budget), Some(true));
    assert!(evidential_relation("supports") && !evidential_relation("cites"));
}

#[test]
fn searches_that_need_no_step_answer_under_a_cancelled_budget() {
    let token = std::sync::Arc::new(std::sync::atomic::AtomicBool::new(true));
    let cancelled = ExecutionBudget::new(std::time::Duration::from_secs(60), token);
    let empty: Vec<Vec<usize>> = Vec::new();
    assert_eq!(component_count(&empty, &cancelled), Some(0));
    assert_eq!(component_count(&vec![vec![]], &cancelled), None);
    assert_eq!(has_directed_cycle(2, &vec![(0, 1), (1, 0)], &cancelled), Some(true));
    assert_eq!(has_directed_cycle(0, &vec![], &cancelled), Some(false));
    assert_eq!(has_directed_cycle(2, &vec![(0, 1)], &cancelled), None);
    assert_eq!(directed_cycle(&ids(&[]), &pairs(&[("a", "b")]), &cancelled), Some(false));
    assert_eq!(weak_component_count(&ids(&[]), &pairs(&[]), &cancelled), Some(0));
}
