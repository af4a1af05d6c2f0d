use rp_core::finding::{ProjectPath, Status};

#[test]
fn status_has_the_frozen_exit_mapping() {
    assert_eq!(Status::Success.exit_code(), 0);
    assert_eq!(Status::Invalid.exit_code(), 1);
    assert_eq!(Status::Denied.exit_code(), 1);
    assert_eq!(Status::NotFound.exit_code(), 1);
    assert_eq!(Status::Conflict.exit_code(), 1);
    assert_eq!(Status::UsageError.exit_code(), 2);
    assert_eq!(Status::IoError.exit_code(), 3);
    assert_eq!(Status::InternalError.exit_code(), 4);
    assert_eq!(Status::Interrupted.exit_code(), 130);
}

#[test]
fn project_paths_cannot_contain_host_paths_or_traversal() {
    assert!(ProjectPath::new(".research/project.yaml").is_ok());
    assert!(ProjectPath::new("/home/alice/private/project.yaml").is_err());
    assert!(ProjectPath::new("../private/project.yaml").is_err());
    assert!(ProjectPath::new(r"C:\\private\\project.yaml").is_err());
    assert!(ProjectPath::new("C:/private/project.yaml").is_err());
}
