use rp_core::content_observations::{Completeness, ContentFindings, ObservationLimits, ObservationStore, Owner, Phase};
use rp_core::finding::{Finding, Severity};
use rp_core::findings::Findings;

#[test]
fn findings_cap_preserves_source_observation_and_marks_coverage_incomplete() {
    let mut findings = ContentFindings::with_budget(true, Findings::new(1));
    findings.begin(Owner::Object("qst_owner".to_string()), Phase::Narrative, None, None, &[]);
    findings.state(Completeness::Verified);
    findings.push(|| Finding::new("test", "test", Severity::Error, "retained", None, "/first"));
    findings.push(|| panic!("overflow finding must not allocate"));
    let store = findings.store.as_ref().unwrap();
    assert!(!store.coverage_complete);
    assert_eq!(store.records[0].findings.len(), 1);
    assert_eq!(store.records[0].findings[0].json_pointer.as_str(), "/first");
    assert_eq!(store.records[0].owner, Owner::Object("qst_owner".to_string()));
    let (output, error, complete) = findings.output.finish();
    assert!(error && !complete);
    assert_eq!(output[0].error_code, "RP_W_FINDINGS_TRUNCATED");
}

#[test]
fn a_refused_reservation_exhausts_the_store_for_every_later_record() {
    let limits = ObservationLimits { records: 1, ..ObservationLimits::default() };
    let mut store = ObservationStore::new(limits);
    assert_eq!(store.begin(Owner::Outer, Phase::Artifact, None, None, &[]), Some(0));
    assert!(store.coverage_complete && !store.retention_exhausted);
    assert_eq!(store.begin(Owner::Outer, Phase::Artifact, None, None, &[]), None);
    assert!(!store.coverage_complete && store.retention_exhausted);
    assert_eq!(store.remaining.bytes, 0);
    assert_eq!(store.begin(Owner::Outer, Phase::Canonical, None, None, &[]), None);
    assert_eq!(store.records.len(), 1);
}
