use rp_core::findings::{admission_step, ProductionAllowance};
use rp_core::finding::{Finding, Severity};
use rp_core::findings::Findings;

fn finding(severity: Severity) -> Finding {
    Finding::new("test", "test", severity, "test", None, "")
}

#[test]
fn exact_boundary_is_unchanged_and_overflow_is_lazy_and_sticky() {
    let mut exact = Findings::new(2);
    exact.emit(Severity::Warning, || finding(Severity::Warning));
    exact.push(|| finding(Severity::Error));
    let (retained, error, complete) = exact.finish();
    assert_eq!(
        retained,
        vec![finding(Severity::Warning), finding(Severity::Error)]
    );
    assert!(error && complete);
    let mut over = Findings::new(2);
    over.emit(Severity::Warning, || finding(Severity::Warning));
    over.push(|| finding(Severity::Error));
    over.emit(Severity::Warning, || panic!("overflow conversion"));
    over.push(|| panic!("cancelled conversion"));
    let (retained, error, complete) = over.finish();
    assert_eq!(retained.len(), 2);
    assert_eq!(retained[1].error_code, "RP_W_FINDINGS_TRUNCATED");
    assert!(error && !complete);
}

#[test]
fn fork_presentation_sort_must_not_change_later_overflow_eviction() {
    let mut root = Findings::new(2);
    let mut child = root.fork();
    for pointer in ["/z", "/a"] {
        child.push(|| Finding::new("test", "test", Severity::Error, "test", None, pointer));
    }
    child.sort_and_dedup();
    root.absorb(child);
    root.push(|| panic!("overflow conversion"));
    let (retained, error, complete) = root.finish();
    assert_eq!(retained[0].json_pointer, "/z");
    assert_eq!(retained[1].error_code, "RP_W_FINDINGS_TRUNCATED");
    assert!(error && !complete);
}

#[test]
fn command_append_preserves_admission_and_consumed_discarded_or_deduplicated_allowance() {
    let mut root = Findings::new(2);
    for pointer in ["/z", "/a"] {
        root.push(|| Finding::new("test", "test", Severity::Error, "test", None, pointer));
    }
    let (display, state, _, _) = root.into_output().report_parts();
    assert_eq!(display[0].json_pointer, "/a");
    let mut command = state.restore(display);
    command.push_error(|| panic!("command overflow conversion"));
    let output = command.into_findings();
    assert_eq!(output[0].json_pointer, "/z");
    assert_eq!(output[1].error_code, "RP_W_FINDINGS_TRUNCATED");
    for discard in [false, true] {
        let mut root = Findings::new(2);
        let mut child = root.fork();
        child.push(|| finding(Severity::Error));
        child.push(|| finding(Severity::Error));
        child.sort_and_dedup();
        if !discard {
            root.absorb(child);
        }
        let (display, state, error, complete) = root.into_output().report_parts();
        assert!(error && complete);
        assert_eq!(display.len(), usize::from(!discard));
        let mut command = state.restore(display);
        command.push_error(|| panic!("discard/dedup must not refund allowance"));
        assert!(!command.is_empty());
        let output = command.into_findings();
        assert_eq!(output.last().unwrap().error_code, "RP_W_FINDINGS_TRUNCATED");
        assert_eq!(output.len(), 1 + usize::from(!discard));
    }
}

#[test]
fn tiny_limits_warning_only_and_nested_scopes_are_safe() {
    for limit in [0, 1] {
        let mut root = Findings::new(limit);
        let mut child = root.fork();
        child.emit(Severity::Warning, || finding(Severity::Warning));
        root.emit(Severity::Warning, || panic!("no fresh nested budget"));
        let (retained, error, complete) = root.finish();
        assert_eq!(retained.len(), 1);
        assert!(!error && !complete);
    }
    assert!(!Findings::default().cancelled());
}

#[test]
fn iterator_and_conversion_cancel_before_unbounded_tail() {
    let conversions = std::cell::Cell::new(0);
    let mut findings = Findings::new(3);
    findings.collect_errors((0..100000).collect::<Vec<u32>>(), |_| {
        conversions.set(conversions.get() + 1);
        finding(Severity::Error)
    });
    assert_eq!(conversions.get(), 3);
    findings.collect_errors(vec![()], |_: ()| panic!("later conversion"));
}

#[test]
fn admission_fills_the_allowance_then_exhausts_it() {
    let fresh = ProductionAllowance { limit: 2, produced: 0, incomplete: false, had_error: false };
    let (one, admitted) = admission_step(fresh, true, Severity::Warning);
    assert!(admitted && one.produced == 1 && !one.had_error);
    let (two, admitted) = admission_step(one, true, Severity::Error);
    assert!(admitted && two.produced == 2 && two.had_error && !two.incomplete);
    let (three, admitted) = admission_step(two, true, Severity::Warning);
    assert!(!admitted && three.produced == 2 && three.incomplete);
    let (four, admitted) = admission_step(three, true, Severity::Error);
    assert!(!admitted && four.incomplete && four.produced == 2);
    let (stopped, admitted) = admission_step(fresh, false, Severity::Error);
    assert!(!admitted && stopped.produced == 0 && !stopped.had_error);
}
