use rp_core::project::ProjectLimits;
use rp_core::finding::ProjectPath;
use rp_core::project::ExpectedLayout;
use rp_core::scan::{admit_files, directory_entry_cap, entry_step, inventory, Discovered, EntryAction, EntryKind, ScanState};

fn names(list: &[&[u8]]) -> Vec<Vec<u8>> {
    list.iter().map(|n| n.to_vec()).collect()
}

#[test]
fn a_listing_is_sorted_without_dots_and_refused_past_its_cap() {
    let listing = names(&[b"b.yaml", b".", b"a", b"..", b"records"]);
    assert_eq!(inventory(&listing, 3), Some(names(&[b"a", b"b.yaml", b"records"])));
    assert_eq!(inventory(&listing, 2), None);
    let reordered = names(&[b"records", b"a", b"b.yaml"]);
    assert_eq!(inventory(&reordered, 3), inventory(&listing, 3));
    let mut limits = ProjectLimits::default();
    assert_eq!(directory_entry_cap(&limits), 100_000);
    limits.directory_entries = 7;
    assert_eq!(directory_entry_cap(&limits), 7);
    limits.directory_entries = usize::MAX;
    assert_eq!(directory_entry_cap(&limits), 100_000);
}

fn code(a: &EntryAction) -> &'static str {
    match a {
        EntryAction::Report(f) | EntryAction::Abandon(f) => f.error_code,
        EntryAction::Descend(_) => "descend",
        EntryAction::Discover(..) => "discover",
        EntryAction::Skip => "skip",
    }
}

#[test]
fn each_entry_is_reported_queued_discovered_or_skipped() {
    let limits = ProjectLimits::default();
    let mut state = ScanState { directories: 1, discovered: 0, visited: vec![(1, 1)] };
    let a = entry_step(&mut state, &limits, "", &b"project.yaml".to_vec(), EntryKind::RegularFile, (1, 2), 10);
    match &a {
        EntryAction::Discover(rel, path, _, size) => {
            assert_eq!(rel, "project.yaml");
            assert_eq!(path.as_str(), ".research/project.yaml");
            assert_eq!(*size, 10);
        }
        other => panic!("unexpected {other:?}"),
    }
    assert_eq!(state.discovered, 1);
    let a = entry_step(&mut state, &limits, "", &b"notes.txt".to_vec(), EntryKind::RegularFile, (1, 3), 10);
    assert_eq!(code(&a), "skip");
    let a = entry_step(&mut state, &limits, "", &b"records".to_vec(), EntryKind::Directory, (1, 4), 0);
    assert!(matches!(&a, EntryAction::Descend(d) if d == "records"));
    assert_eq!(state.directories, 2);
    let a = entry_step(&mut state, &limits, "", &b"again".to_vec(), EntryKind::Directory, (1, 4), 0);
    assert_eq!(code(&a), "RP_E_PATH_PROJECT_ESCAPE");
    let a = entry_step(&mut state, &limits, "records", &b"link".to_vec(), EntryKind::Symlink, (1, 5), 0);
    assert_eq!(code(&a), "RP_E_PATH_SYMLINK_FORBIDDEN");
    let a = entry_step(&mut state, &limits, "records", &vec![0xff, 0xfe], EntryKind::RegularFile, (1, 6), 0);
    assert_eq!(code(&a), "RP_E_PATH_PROJECT_ESCAPE");
    let a = entry_step(&mut state, &limits, "", &b"fifo".to_vec(), EntryKind::Other, (1, 7), 0);
    assert_eq!(code(&a), "RP_E_PATH_NON_REGULAR_FILE");
    let mut tight = ProjectLimits::default();
    tight.scanned_directories = 2;
    let a = entry_step(&mut state, &tight, "", &b"more".to_vec(), EntryKind::Directory, (1, 8), 0);
    assert_eq!(code(&a), "RP_E_RESOURCE_SCANNED_DIRECTORIES_EXCEEDED");
}

fn file(relative: &str, expected: ExpectedLayout, size: usize) -> Discovered {
    Discovered {
        relative: relative.to_string(),
        path: ProjectPath::new(&format!(".research/{relative}")).unwrap(),
        expected,
        size,
    }
}

#[test]
fn scanned_files_are_sorted_and_held_to_their_byte_budgets() {
    let mut limits = ProjectLimits::default();
    limits.yaml_bytes_per_object = 100;
    limits.whole_project_yaml_bytes = 150;
    let found = vec![
        file("relations/c.yaml", ExpectedLayout::Relation, 90),
        file("project.yaml", ExpectedLayout::Project, 10),
        file("relations/b.yaml", ExpectedLayout::Relation, 500),
        file("relations/a.yaml", ExpectedLayout::Relation, 80),
    ];
    let (kept, findings) = admit_files(found, &limits);
    let kept_paths: Vec<&str> = kept.iter().map(|d| d.relative.as_str()).collect();
    assert_eq!(kept_paths, vec!["project.yaml", "relations/a.yaml"]);
    let codes: Vec<&str> = findings.iter().map(|f| f.error_code).collect();
    assert_eq!(codes, vec!["RP_E_RESOURCE_FILE_SIZE_EXCEEDED", "RP_E_RESOURCE_TOTAL_BYTES_EXCEEDED"]);
    let (kept, findings) = admit_files(vec![file("relations/a.yaml", ExpectedLayout::Relation, 1)], &limits);
    assert_eq!(kept.len(), 1);
    assert_eq!(findings[0].error_code, "RP_E_PROJECT_DESCRIPTOR_NOT_FOUND");
}
