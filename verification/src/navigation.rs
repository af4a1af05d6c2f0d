//! Navigation results: freshness states, overview and query shapes, and their errors.
use vstd::prelude::*;

use crate::execution::ExecutionStop;
use crate::model::ObjectType;
use crate::text::{str_chars, str_eq, string_push};

verus! {

/// How current a record is relative to its sources and review rules.
#[derive(Clone, Copy, Debug, PartialEq, Eq, Structural, PartialOrd, Ord)]
pub enum FreshnessStatus {
    Unknown,
    Fresh,
    ReviewDue,
    Stale,
}

pub open spec fn freshness_name(s: FreshnessStatus) -> Seq<char> {
    match s {
        FreshnessStatus::Unknown => "unknown"@,
        FreshnessStatus::Fresh => "fresh"@,
        FreshnessStatus::ReviewDue => "review-due"@,
        FreshnessStatus::Stale => "stale"@,
    }
}

impl FreshnessStatus {
    /// The status named by `value`, if any.
    pub fn parse(value: &str) -> (r: Option<FreshnessStatus>)
        ensures
            r matches Some(s) ==> freshness_name(s) == value@,
            r is None ==> forall|s: FreshnessStatus| freshness_name(s) != value@,
    {
        proof {
            reveal_strlit("unknown");
            reveal_strlit("fresh");
            reveal_strlit("review-due");
            reveal_strlit("stale");
        }
        if str_eq(value, "unknown") {
            Some(FreshnessStatus::Unknown)
        } else if str_eq(value, "fresh") {
            Some(FreshnessStatus::Fresh)
        } else if str_eq(value, "review-due") {
            Some(FreshnessStatus::ReviewDue)
        } else if str_eq(value, "stale") {
            Some(FreshnessStatus::Stale)
        } else {
            None
        }
    }

    /// The wire name of the status.
    pub fn as_str(self) -> (s: &'static str)
        ensures
            s@ == freshness_name(self),
    {
        proof {
            reveal_strlit("unknown");
            reveal_strlit("fresh");
            reveal_strlit("review-due");
            reveal_strlit("stale");
        }
        match self {
            FreshnessStatus::Unknown => "unknown",
            FreshnessStatus::Fresh => "fresh",
            FreshnessStatus::ReviewDue => "review-due",
            FreshnessStatus::Stale => "stale",
        }
    }
}

/// Reading a status's name back gives the status.
pub proof fn law_freshness_name_round_trip(s: FreshnessStatus, t: FreshnessStatus)
    ensures
        freshness_name(s) == freshness_name(t) ==> s == t,
{
    reveal_strlit("unknown");
    reveal_strlit("fresh");
    reveal_strlit("review-due");
    reveal_strlit("stale");
    if freshness_name(s) == freshness_name(t) && s != t {
        match (s, t) {
            (FreshnessStatus::Unknown, _) => assert(freshness_name(s).len() != freshness_name(t).len() || freshness_name(s)[0] != freshness_name(t)[0]),
            (FreshnessStatus::Fresh, _) => assert(freshness_name(s).len() != freshness_name(t).len() || freshness_name(s)[0] != freshness_name(t)[0]),
            (FreshnessStatus::ReviewDue, _) => assert(freshness_name(s).len() != freshness_name(t).len() || freshness_name(s)[0] != freshness_name(t)[0]),
            (FreshnessStatus::Stale, _) => assert(freshness_name(s).len() != freshness_name(t).len() || freshness_name(s)[0] != freshness_name(t)[0]),
        }
    }
}

/// The freshness of one record and the rules that applied.
#[derive(Clone, Debug, PartialEq, Eq)]
pub struct FreshnessEvaluation {
    pub status: FreshnessStatus,
    pub applicable_rules: Vec<String>,
}

/// How many records have each freshness status.
#[derive(Clone, Copy, Debug, PartialEq, Eq, Structural)]
pub struct FreshnessCounts {
    pub unknown: usize,
    pub fresh: usize,
    pub review_due: usize,
    pub stale: usize,
}

impl Default for FreshnessCounts {
    fn default() -> (c: Self)
        ensures
            c == (FreshnessCounts { unknown: 0, fresh: 0, review_due: 0, stale: 0 }),
    {
        FreshnessCounts { unknown: 0, fresh: 0, review_due: 0, stale: 0 }
    }
}

impl FreshnessCounts {
    pub open spec fn count_of(self, s: FreshnessStatus) -> int {
        match s {
            FreshnessStatus::Unknown => self.unknown as int,
            FreshnessStatus::Fresh => self.fresh as int,
            FreshnessStatus::ReviewDue => self.review_due as int,
            FreshnessStatus::Stale => self.stale as int,
        }
    }

    /// Counts one more record of status `s`.
    pub fn record(&mut self, s: FreshnessStatus)
        requires
            old(self).count_of(s) < usize::MAX,
        ensures
            final(self).count_of(s) == old(self).count_of(s) + 1,
            forall|t: FreshnessStatus| t != s ==> final(self).count_of(t) == old(self).count_of(t),
    {
        match s {
            FreshnessStatus::Unknown => self.unknown = self.unknown + 1,
            FreshnessStatus::Fresh => self.fresh = self.fresh + 1,
            FreshnessStatus::ReviewDue => self.review_due = self.review_due + 1,
            FreshnessStatus::Stale => self.stale = self.stale + 1,
        }
    }
}

/// A project overview: object counts by kind, open forks, blockers, next actions and
/// freshness counts.
#[derive(Clone, Debug, PartialEq, Eq)]
pub struct OverviewDto {
    pub object_counts: Vec<(String, usize)>,
    pub unresolved_forks: Vec<String>,
    pub blockers: Vec<String>,
    pub next_actions: Vec<String>,
    pub freshness_counts: FreshnessCounts,
}

/// Filters and bounds of a record query.
#[derive(Clone, Debug, PartialEq, Eq)]
pub struct QueryOptions {
    pub kind: Option<String>,
    pub thread_id: Option<String>,
    pub freshness: Option<FreshnessStatus>,
    pub as_of: String,
    pub limit: usize,
}

/// Which bound an oversized graph exceeded.
#[derive(Clone, Copy, Debug, PartialEq, Eq, Structural)]
pub enum OversizedReason {
    SemanticNodes { count: usize, limit: usize },
    ScientificRelations { count: usize, limit: usize },
    CanonicalRecords { count: usize, limit: usize },
    CanonicalBytes { bytes: usize, limit: usize },
}

/// Why a navigation request could not be answered.
#[derive(Clone, Debug, PartialEq, Eq)]
pub enum NavigationError {
    Stopped(ExecutionStop),
    NotFound,
    InvalidAsOf,
    InvalidLimit,
    OversizedGraph(OversizedReason),
    SerializationError(String),
}

/// The key under which objects of a kind are counted.
pub open spec fn count_key(t: ObjectType) -> Seq<char> {
    match t {
        ObjectType::Project => "project"@,
        ObjectType::Node(_) => "node_revision"@,
        ObjectType::Relation => "scientific_relation_revision"@,
        ObjectType::Assessment => "assessment"@,
        ObjectType::Thread => "research_thread"@,
        ObjectType::ThreadBinding => "thread_binding"@,
        ObjectType::ClaimChain => "claim_chain_snapshot"@,
        ObjectType::ExternalReference => "external_reference"@,
        ObjectType::Artifact => "artifact_manifest"@,
        ObjectType::ResearchRun => "research_run"@,
    }
}

/// The key under which objects of this kind are counted in an overview.
pub fn object_count_key(object_type: &ObjectType) -> (s: &'static str)
    ensures
        s@ == count_key(*object_type),
{
    proof {
        reveal_strlit("project");
        reveal_strlit("node_revision");
        reveal_strlit("scientific_relation_revision");
        reveal_strlit("assessment");
        reveal_strlit("research_thread");
        reveal_strlit("thread_binding");
        reveal_strlit("claim_chain_snapshot");
        reveal_strlit("external_reference");
        reveal_strlit("artifact_manifest");
        reveal_strlit("research_run");
    }
    match object_type {
        ObjectType::Project => "project",
        ObjectType::Node(_) => "node_revision",
        ObjectType::Relation => "scientific_relation_revision",
        ObjectType::Assessment => "assessment",
        ObjectType::Thread => "research_thread",
        ObjectType::ThreadBinding => "thread_binding",
        ObjectType::ClaimChain => "claim_chain_snapshot",
        ObjectType::ExternalReference => "external_reference",
        ObjectType::Artifact => "artifact_manifest",
        ObjectType::ResearchRun => "research_run",
    }
}

/// One character of a JSON Pointer reference token, escaped.
pub open spec fn escape_char(c: char) -> Seq<char> {
    if c == '~' {
        seq!['~', '0']
    } else if c == '/' {
        seq!['~', '1']
    } else {
        seq![c]
    }
}

/// A JSON Pointer reference token (RFC 6901): `~` becomes `~0`, then `/` becomes `~1`.
pub open spec fn escaped_token(s: Seq<char>) -> Seq<char>
    decreases s.len(),
{
    if s.len() == 0 {
        Seq::empty()
    } else {
        escaped_token(s.drop_last()) + escape_char(s.last())
    }
}

/// Escapes a key for use as one JSON Pointer reference token.
pub fn escape_pointer(value: &str) -> (r: String)
    ensures
        r@ == escaped_token(value@),
{
    let c = str_chars(value);
    let mut out = String::new();
    let mut i: usize = 0;
    proof {
        assert(c@.subrange(0, 0) =~= Seq::<char>::empty());
        assert(out@ =~= Seq::<char>::empty());
    }
    while i < c.len()
        invariant
            c@ == value@,
            i <= c@.len(),
            out@ == escaped_token(c@.subrange(0, i as int)),
        decreases c@.len() - i,
    {
        let ch = c[i];
        let ghost before = out@;
        if ch == '~' {
            string_push(&mut out, '~');
            string_push(&mut out, '0');
        } else if ch == '/' {
            string_push(&mut out, '~');
            string_push(&mut out, '1');
        } else {
            string_push(&mut out, ch);
        }
        proof {
            let next = c@.subrange(0, i + 1);
            assert(next.drop_last() =~= c@.subrange(0, i as int));
            assert(next.last() == ch);
            assert(out@ =~= before + escape_char(ch));
        }
        i = i + 1;
    }
    assert(c@.subrange(0, c@.len() as int) =~= c@);
    out
}

} // verus!
