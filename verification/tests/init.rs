use rp_core::execution::ExecutionStop;
use rp_core::init::{encode_ulid, init_project_id, project_slug, InitError};

#[test]
fn ulids_are_crockford_base32_of_time_and_randomness() {
    assert_eq!(encode_ulid(0, [0; 10]), "00000000000000000000000000");
    assert_eq!(
        encode_ulid(
            1_469_918_176_385,
            [0x01, 0x23, 0x45, 0x67, 0x89, 0xab, 0xcd, 0xef, 0xfe, 0xdc]
        ),
        "01ARYZ6S4104HMASW9NF6YZZPW"
    );
    assert_eq!(encode_ulid(u64::MAX, [0xff; 10]), "7ZZZZZZZZZZZZZZZZZZZZZZZZZ");
}

#[test]
fn project_ids_use_the_digest_prefix_as_randomness() {
    assert_eq!(
        init_project_id(b"material", 1_700_000_000_000),
        "proj_01HF7YAT0082SGPKMF1M9Q0NNC"
    );
    assert_eq!(&init_project_id(b"x", -5)[..15], "proj_0000000000");
}

#[test]
fn slugs_lowercase_and_collapse_separators() {
    assert_eq!(project_slug(Some("My Research_Project!!2")), "my-research-project-2");
    assert_eq!(project_slug(Some("--ABC--")), "abc");
    assert_eq!(project_slug(Some("日本")), "research-project");
    assert_eq!(project_slug(None), "research-project");
    assert_eq!(project_slug(Some("\u{212a}elvin")), "kelvin");
}

#[test]
fn init_errors_describe_themselves() {
    assert_eq!(
        InitError::Conflict.message(),
        ".research already exists; refusing to overwrite"
    );
    assert_eq!(
        InitError::Stopped(ExecutionStop::Interrupted).message(),
        "command cancelled by caller token"
    );
    assert_eq!(InitError::Io("disk".to_string()).message(), "disk");
}
