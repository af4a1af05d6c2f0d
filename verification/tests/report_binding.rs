use rp_core::access::{AccessLabel, AccessLevel};
use rp_core::execution::ExecutionStop;
use rp_core::report_binding::{
    covers_floor, label_work, unavailable, ReportBindingObservation, ReportComparison,
    ReportLabels, ReportSubjectUnavailable, SubjectBudget, SubjectUnavailable,
};

fn strings(v: &[&str]) -> Vec<String> {
    v.iter().map(|s| s.to_string()).collect()
}

#[test]
fn only_matched_passed_subjects_with_accepted_labels_permit_validity() {
    let ok = ReportBindingObservation {
        comparison: ReportComparison::MatchedSubjectPassed,
        labels: ReportLabels::Accepted,
    };
    assert!(ok.permits_chain_valid());
    for (comparison, labels) in [
        (ReportComparison::MatchedSubjectFailed, ReportLabels::Accepted),
        (ReportComparison::MatchedSubjectPassed, ReportLabels::NotEvaluated),
        (ReportComparison::Mismatch, ReportLabels::Accepted),
    ] {
        assert!(!ReportBindingObservation { comparison, labels }.permits_chain_valid());
    }
}

#[test]
fn unavailable_subjects_map_to_comparisons_and_codes() {
    assert_eq!(
        unavailable(SubjectUnavailable::OwnReport),
        (
            ReportComparison::SourceSeparation,
            "RP_E_REPORT_SOURCE_SEPARATION",
            "claim_chain_validation_report"
        )
    );
    assert_eq!(
        unavailable(SubjectUnavailable::Budget),
        (
            ReportComparison::SubjectUnavailable(ReportSubjectUnavailable::Budget),
            "RP_E_RESOURCE_REPORT_SUBJECT_EXCEEDED",
            "resource_limit"
        )
    );
    assert_eq!(
        unavailable(SubjectUnavailable::Stopped(ExecutionStop::Interrupted)),
        (
            ReportComparison::SubjectUnavailable(ReportSubjectUnavailable::ExecutionStopped(
                ExecutionStop::Interrupted
            )),
            "RP_E_INTERRUPTED",
            "interrupted"
        )
    );
}

#[test]
fn subject_budgets_charge_what_is_left_and_refuse_the_excess() {
    let mut budget = SubjectBudget::new();
    budget.remaining_bytes = 10;
    assert_eq!(budget.bytes(4), Ok(()));
    assert_eq!(budget.remaining_bytes, 6);
    assert_eq!(budget.bytes(7), Err(SubjectUnavailable::Budget));
    assert_eq!(budget.remaining_bytes, 0);
    budget.remaining_work = 5;
    assert_eq!(budget.work(5), Ok(()));
    assert_eq!(budget.work(1), Err(SubjectUnavailable::Budget));
    assert_eq!(budget.remaining_work, 0);
}

#[test]
fn label_work_saturates() {
    assert_eq!(label_work(&strings(&["ab"]), &strings(&["c", ""])), (3 + 2 + 1) * 68);
    assert_eq!(label_work(&strings(&[]), &strings(&[])), 0);
}

#[test]
fn labels_cover_a_floor_only_when_sorted_dominating_and_complete() {
    let floor = AccessLabel {
        level: AccessLevel::Internal,
        compartments: strings(&["b"]),
    };
    assert!(covers_floor(Some(AccessLevel::Restricted), &strings(&["a", "b"]), &floor));
    assert!(!covers_floor(Some(AccessLevel::Public), &strings(&["a", "b"]), &floor));
    assert!(!covers_floor(Some(AccessLevel::Restricted), &strings(&["b", "a"]), &floor));
    assert!(!covers_floor(Some(AccessLevel::Restricted), &strings(&["a"]), &floor));
    assert!(!covers_floor(None, &strings(&["b"]), &floor));
}
