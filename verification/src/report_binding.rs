//! Report binding observations, subject budgets and the report label rule.
use vstd::prelude::*;
use vstd::utf8::encode_utf8;

use crate::access::{level_rank, names, AccessLabel, AccessLevel};
use crate::execution::{ExecutionBudget, ExecutionStop};
use crate::text::{bytes_lt, compare_bytes, str_eq};

verus! {

/// Why a report subject could not be evaluated; never a fabricated failed body.
#[derive(Clone, Copy, Debug, PartialEq, Eq, Structural)]
pub enum ReportSubjectUnavailable {
    ExecutionStopped(ExecutionStop),
    IndexIncomplete,
    Budget,
    ContentIncomplete,
    Attribution,
    WireContract,
}

/// How a report candidate compares with the independently evaluated subject.
#[derive(Clone, Copy, Debug, PartialEq, Eq, Structural)]
pub enum ReportComparison {
    MatchedSubjectPassed,
    MatchedSubjectFailed,
    Mismatch,
    CandidateUnavailable,
    SourceSeparation,
    SubjectUnavailable(ReportSubjectUnavailable),
}

/// Whether the snapshot and report labels were compared and accepted.
#[derive(Clone, Copy, Debug, PartialEq, Eq, Structural)]
pub enum ReportLabels {
    NotEvaluated,
    Accepted,
    Rejected,
}

/// A read-only observation for one admitted (snapshot, report) pair.
#[derive(Clone, Copy, Debug, PartialEq, Eq, Structural)]
pub struct ReportBindingObservation {
    pub comparison: ReportComparison,
    pub labels: ReportLabels,
}

impl ReportBindingObservation {
    /// Only a matched, passed subject with accepted labels lets a chain be valid.
    pub fn permits_chain_valid(self) -> (r: bool)
        ensures
            r == (self.comparison == ReportComparison::MatchedSubjectPassed && self.labels
                == ReportLabels::Accepted),
    {
        self.comparison == ReportComparison::MatchedSubjectPassed && self.labels == ReportLabels::Accepted
    }
}

/// Why an expected subject report could not be built.
#[derive(Clone, Copy, Debug, PartialEq, Eq, Structural)]
pub enum SubjectUnavailable {
    Stopped(ExecutionStop),
    IndexIncomplete,
    Budget,
    ContentIncomplete,
    Attribution,
    OwnReport,
    WireContract,
}

pub open spec fn unavailable_outcome(reason: SubjectUnavailable) -> (ReportComparison, Seq<char>, Seq<char>) {
    match reason {
        SubjectUnavailable::Stopped(stop) => (
            ReportComparison::SubjectUnavailable(ReportSubjectUnavailable::ExecutionStopped(stop)),
            crate::execution::stop_code(stop),
            crate::execution::stop_family(stop),
        ),
        SubjectUnavailable::OwnReport => (
            ReportComparison::SourceSeparation,
            "RP_E_REPORT_SOURCE_SEPARATION"@,
            "claim_chain_validation_report"@,
        ),
        SubjectUnavailable::Budget => (
            ReportComparison::SubjectUnavailable(ReportSubjectUnavailable::Budget),
            "RP_E_RESOURCE_REPORT_SUBJECT_EXCEEDED"@,
            "resource_limit"@,
        ),
        SubjectUnavailable::IndexIncomplete => (
            ReportComparison::SubjectUnavailable(ReportSubjectUnavailable::IndexIncomplete),
            "RP_E_REPORT_SUBJECT_INDEX_INCOMPLETE"@,
            "claim_chain_validation_report"@,
        ),
        SubjectUnavailable::ContentIncomplete => (
            ReportComparison::SubjectUnavailable(ReportSubjectUnavailable::ContentIncomplete),
            "RP_E_REPORT_SUBJECT_CONTENT_INCOMPLETE"@,
            "claim_chain_validation_report"@,
        ),
        SubjectUnavailable::Attribution => (
            ReportComparison::SubjectUnavailable(ReportSubjectUnavailable::Attribution),
            "RP_E_REPORT_SUBJECT_ATTRIBUTION"@,
            "claim_chain_validation_report"@,
        ),
        SubjectUnavailable::WireContract => (
            ReportComparison::SubjectUnavailable(ReportSubjectUnavailable::WireContract),
            "RP_E_REPORT_SUBJECT_WIRE_CONTRACT"@,
            "claim_chain_validation_report"@,
        ),
    }
}

/// The comparison recorded, and the finding code and family reported, when a
/// subject is unavailable.
pub fn unavailable(reason: SubjectUnavailable) -> (r: (ReportComparison, &'static str, &'static str))
    ensures
        (r.0, r.1@, r.2@) == unavailable_outcome(reason),
{
    proof {
        reveal_strlit("RP_E_REPORT_SOURCE_SEPARATION");
        reveal_strlit("claim_chain_validation_report");
        reveal_strlit("RP_E_RESOURCE_REPORT_SUBJECT_EXCEEDED");
        reveal_strlit("resource_limit");
        reveal_strlit("RP_E_REPORT_SUBJECT_INDEX_INCOMPLETE");
        reveal_strlit("RP_E_REPORT_SUBJECT_CONTENT_INCOMPLETE");
        reveal_strlit("RP_E_REPORT_SUBJECT_ATTRIBUTION");
        reveal_strlit("RP_E_REPORT_SUBJECT_WIRE_CONTRACT");
    }
    match reason {
        SubjectUnavailable::Stopped(stop) => {
            let f = stop.finding();
            (
                ReportComparison::SubjectUnavailable(ReportSubjectUnavailable::ExecutionStopped(stop)),
                f.error_code,
                f.finding_family,
            )
        },
        SubjectUnavailable::OwnReport => (
            ReportComparison::SourceSeparation,
            "RP_E_REPORT_SOURCE_SEPARATION",
            "claim_chain_validation_report",
        ),
        SubjectUnavailable::Budget => (
            ReportComparison::SubjectUnavailable(ReportSubjectUnavailable::Budget),
            "RP_E_RESOURCE_REPORT_SUBJECT_EXCEEDED",
            "resource_limit",
        ),
        SubjectUnavailable::IndexIncomplete => (
            ReportComparison::SubjectUnavailable(ReportSubjectUnavailable::IndexIncomplete),
            "RP_E_REPORT_SUBJECT_INDEX_INCOMPLETE",
            "claim_chain_validation_report",
        ),
        SubjectUnavailable::ContentIncomplete => (
            ReportComparison::SubjectUnavailable(ReportSubjectUnavailable::ContentIncomplete),
            "RP_E_REPORT_SUBJECT_CONTENT_INCOMPLETE",
            "claim_chain_validation_report",
        ),
        SubjectUnavailable::Attribution => (
            ReportComparison::SubjectUnavailable(ReportSubjectUnavailable::Attribution),
            "RP_E_REPORT_SUBJECT_ATTRIBUTION",
            "claim_chain_validation_report",
        ),
        SubjectUnavailable::WireContract => (
            ReportComparison::SubjectUnavailable(ReportSubjectUnavailable::WireContract),
            "RP_E_REPORT_SUBJECT_WIRE_CONTRACT",
            "claim_chain_validation_report",
        ),
    }
}

/// The byte and work allowance shared by all subject evaluations of one batch.
pub struct SubjectBudget {
    pub execution: ExecutionBudget,
    pub remaining_work: usize,
    pub remaining_bytes: usize,
}

impl SubjectBudget {
    /// Two million work units and sixteen MiB, with a default execution budget.
    pub fn new() -> (b: Self)
        ensures
            b.remaining_work == 2000000,
            b.remaining_bytes == 16777216,
    {
        SubjectBudget { execution: ExecutionBudget::default(), remaining_work: 2000000, remaining_bytes: 16777216 }
    }

    /// Charges `amount` bytes. What is left is charged even when it does not cover
    /// the amount, which is then refused.
    pub fn bytes(&mut self, amount: usize) -> (r: Result<(), SubjectUnavailable>)
        ensures
            final(self).remaining_work == old(self).remaining_work,
            r matches Err(SubjectUnavailable::Stopped(_)) ==> final(self).remaining_bytes == old(self).remaining_bytes,
            !(r matches Err(SubjectUnavailable::Stopped(_))) ==> {
                &&& final(self).remaining_bytes == if amount <= old(self).remaining_bytes {
                    old(self).remaining_bytes - amount
                } else {
                    0
                }
                &&& (r is Ok <==> amount <= old(self).remaining_bytes)
                &&& (r is Err ==> r == Err::<(), SubjectUnavailable>(SubjectUnavailable::Budget))
            },
    {
        if let Err(stop) = self.execution.checkpoint() {
            return Err(SubjectUnavailable::Stopped(stop));
        }
        let charged = if amount <= self.remaining_bytes { amount } else { self.remaining_bytes };
        self.remaining_bytes = self.remaining_bytes - charged;
        if charged == amount {
            Ok(())
        } else {
            Err(SubjectUnavailable::Budget)
        }
    }

    /// Charges `amount` work units; where they are not all left, the work allowance
    /// is exhausted and the charge refused.
    pub fn work(&mut self, amount: usize) -> (r: Result<(), SubjectUnavailable>)
        ensures
            final(self).remaining_bytes == old(self).remaining_bytes,
            r matches Err(SubjectUnavailable::Stopped(_)) ==> final(self).remaining_work == old(self).remaining_work,
            !(r matches Err(SubjectUnavailable::Stopped(_))) ==> {
                &&& final(self).remaining_work == if amount <= old(self).remaining_work {
                    old(self).remaining_work - amount
                } else {
                    0
                }
                &&& (r is Ok <==> amount <= old(self).remaining_work)
                &&& (r is Err ==> r == Err::<(), SubjectUnavailable>(SubjectUnavailable::Budget))
            },
    {
        if let Err(stop) = self.execution.checkpoint() {
            return Err(SubjectUnavailable::Stopped(stop));
        }
        match self.remaining_work.checked_sub(amount) {
            Some(left) => {
                self.remaining_work = left;
                Ok(())
            },
            None => {
                self.remaining_work = 0;
                Err(SubjectUnavailable::Budget)
            },
        }
    }
}

/// `a + b`, or the largest `usize` where that overflows.
pub open spec fn sat_add(a: int, b: int) -> int {
    if a + b <= usize::MAX { a + b } else { usize::MAX as int }
}

/// `a * b`, or the largest `usize` where that overflows.
pub open spec fn sat_mul(a: int, b: int) -> int {
    if a * b <= usize::MAX { a * b } else { usize::MAX as int }
}

/// The byte lengths of the names, each plus one, summed with saturation.
pub open spec fn names_weight(v: Seq<String>) -> int
    decreases v.len(),
{
    if v.len() == 0 {
        0
    } else {
        sat_add(names_weight(v.drop_last()), sat_add(encode_utf8(v.last()@).len() as int, 1))
    }
}

/// The work charged for comparing a snapshot label with a report label: one unit
/// per name byte and name, times the cost of a word-sized comparison.
pub fn label_work(snapshot: &Vec<String>, report: &Vec<String>) -> (w: usize)
    ensures
        w == sat_mul(sat_add(names_weight(snapshot@), names_weight(report@)), 4 + usize::BITS as int),
{
    let a = names_weight_exec(snapshot);
    let b = names_weight_exec(report);
    let total = a.saturating_add(b);
    let factor: usize = 4 + usize::BITS as usize;
    match total.checked_mul(factor) {
        Some(x) => x,
        None => usize::MAX,
    }
}

fn names_weight_exec(v: &Vec<String>) -> (w: usize)
    ensures
        w == names_weight(v@),
{
    let mut w: usize = 0;
    let mut i: usize = 0;
    proof {
        assert(v@.subrange(0, 0) =~= Seq::<String>::empty());
    }
    while i < v.len()
        invariant
            i <= v@.len(),
            w == names_weight(v@.subrange(0, i as int)),
        decreases v@.len() - i,
    {
        let n = v[i].as_str().as_bytes().len();
        proof {
            let next = v@.subrange(0, i + 1);
            assert(next.drop_last() =~= v@.subrange(0, i as int));
            assert(next.last() == v@[i as int]);
        }
        w = w.saturating_add(n.saturating_add(1));
        i = i + 1;
    }
    assert(v@.subrange(0, v@.len() as int) =~= v@);
    w
}

/// Names strictly ascending by their UTF-8 bytes.
pub open spec fn strictly_sorted(v: Seq<String>) -> bool {
    forall|a: int| 0 <= a < v.len() - 1 ==> bytes_lt(encode_utf8((#[trigger] v[a])@), encode_utf8(v[a + 1]@))
}

/// A snapshot label covers a subject floor when its compartments are strictly sorted,
/// its level is at least the floor's, and it holds every compartment of the floor.
pub open spec fn label_covers(level: Option<AccessLevel>, compartments: Seq<String>, floor: AccessLabel) -> bool {
    &&& level matches Some(l) && level_rank(l) >= level_rank(floor.level)
    &&& strictly_sorted(compartments)
    &&& names(floor.compartments@).subset_of(names(compartments))
}

/// Whether a snapshot label (`level` as parsed, `compartments` as written) covers
/// the subject's disclosure floor.
pub fn covers_floor(level: Option<AccessLevel>, compartments: &Vec<String>, floor: &AccessLabel) -> (r: bool)
    ensures
        r == label_covers(level, compartments@, *floor),
{
    let level_ok = match level {
        Some(l) => l.dominates(floor.level),
        None => false,
    };
    let mut sorted = true;
    let mut a: usize = 0;
    while a < compartments.len() && a + 1 < compartments.len()
        invariant
            a <= compartments@.len(),
            sorted == forall|k: int| 0 <= k < a && k < compartments@.len() - 1 ==> bytes_lt(
                encode_utf8((#[trigger] compartments@[k])@),
                encode_utf8(compartments@[k + 1]@),
            ),
        decreases compartments@.len() - a,
    {
        let c = compare_bytes(compartments[a].as_str().as_bytes(), compartments[a + 1].as_str().as_bytes());
        if !(c < 0) {
            sorted = false;
        }
        a = a + 1;
    }
    level_ok && sorted && crate::access::names_subset(&floor.compartments, compartments)
}

} // verus!
