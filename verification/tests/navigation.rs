use rp_core::model::ObjectType;
use rp_core::navigation::{escape_pointer, object_count_key, FreshnessCounts, FreshnessStatus};

#[test]
fn freshness_names_round_trip() {
    for status in [
        FreshnessStatus::Unknown,
        FreshnessStatus::Fresh,
        FreshnessStatus::ReviewDue,
        FreshnessStatus::Stale,
    ] {
        assert_eq!(FreshnessStatus::parse(status.as_str()), Some(status));
    }
    assert_eq!(FreshnessStatus::ReviewDue.as_str(), "review-due");
    assert_eq!(FreshnessStatus::parse("review_due"), None);
    assert!(FreshnessStatus::Unknown < FreshnessStatus::Stale);
}

#[test]
fn freshness_counts_record_one_status_at_a_time() {
    let mut counts = FreshnessCounts::default();
    counts.record(FreshnessStatus::Stale);
    counts.record(FreshnessStatus::Stale);
    counts.record(FreshnessStatus::Fresh);
    assert_eq!(
        counts,
        FreshnessCounts { unknown: 0, fresh: 1, review_due: 0, stale: 2 }
    );
}

#[test]
fn pointer_tokens_escape_tilde_before_slash() {
    assert_eq!(escape_pointer("a/b~c"), "a~1b~0c");
    assert_eq!(escape_pointer("~1"), "~01");
    assert_eq!(escape_pointer(""), "");
}

#[test]
fn overview_counts_use_schema_keys() {
    assert_eq!(object_count_key(&ObjectType::Node("Test".to_string())), "node_revision");
    assert_eq!(object_count_key(&ObjectType::ClaimChain), "claim_chain_snapshot");
}
