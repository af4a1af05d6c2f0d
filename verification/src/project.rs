//! Project limits, canonical layout rules and relation compatibility.
use vstd::prelude::*;

use crate::finding::{sanitized, Finding, ProjectPath, Severity};
use crate::findings::DEFAULT_FINDINGS_LIMIT;
use crate::model::ObjectType;
use crate::text::{has_suffix, split_on, str_chars, str_eq};

verus! {

/// Resource budgets of one project validation.
#[derive(Clone, Copy, Debug, PartialEq, Eq, Structural)]
pub struct ProjectLimits {
    /// Diagnostic retention including the marker; clamped to 1..=1000.
    pub findings: usize,
    pub canonical_files: usize,
    pub scanned_directories: usize,
    /// Maximum names inventoried per directory, including noncanonical/invalid names.
    pub directory_entries: usize,
    pub yaml_bytes_per_object: usize,
    pub whole_project_yaml_bytes: usize,
    pub graph_nodes: usize,
    pub graph_edges: usize,
    pub traversal_depth: usize,
    pub local_artifact_bytes_per_item: usize,
    /// Wider than 32 bits by default, so kept as `u64` on every platform.
    pub local_artifact_aggregate_bytes: u64,
    pub extension_schemas: usize,
    pub extension_schema_aggregate_bytes: usize,
    pub extension_ref_depth: usize,
}

pub open spec fn default_project_limits() -> ProjectLimits {
    ProjectLimits {
        findings: 1000,
        canonical_files: 100000,
        scanned_directories: 20000,
        directory_entries: 100000,
        yaml_bytes_per_object: 4194304,
        whole_project_yaml_bytes: 536870912,
        graph_nodes: 100000,
        graph_edges: 1000000,
        traversal_depth: 4096,
        local_artifact_bytes_per_item: 1073741824,
        local_artifact_aggregate_bytes: 4294967296,
        extension_schemas: 256,
        extension_schema_aggregate_bytes: 16777216,
        extension_ref_depth: 32,
    }
}

impl Default for ProjectLimits {
    fn default() -> (r: Self)
        ensures
            r == default_project_limits(),
    {
        ProjectLimits {
            findings: DEFAULT_FINDINGS_LIMIT,
            canonical_files: 100000,
            scanned_directories: 20000,
            directory_entries: 100000,
            yaml_bytes_per_object: 4194304,
            whole_project_yaml_bytes: 536870912,
            graph_nodes: 100000,
            graph_edges: 1000000,
            traversal_depth: 4096,
            local_artifact_bytes_per_item: 1073741824,
            local_artifact_aggregate_bytes: 4294967296,
            extension_schemas: 256,
            extension_schema_aggregate_bytes: 16777216,
            extension_ref_depth: 32,
        }
    }
}

/// Why a project could not be loaded at all.
#[derive(Clone, Debug, PartialEq, Eq)]
pub enum ProjectLoadError {
    Io(String),
    Schema(String),
    UnsupportedPlatform,
}

pub open spec fn load_error_message(e: ProjectLoadError) -> Seq<char> {
    match e {
        ProjectLoadError::Io(m) => "project I/O failed: "@ + m@,
        ProjectLoadError::Schema(m) => "embedded schema initialization failed: "@ + m@,
        ProjectLoadError::UnsupportedPlatform => "secure project loading requires Linux openat2 containment on this platform"@,
    }
}

impl ProjectLoadError {
    /// The human-readable description.
    pub fn message(&self) -> (m: String)
        ensures
            m@ == load_error_message(*self),
    {
        proof {
            reveal_strlit("project I/O failed: ");
            reveal_strlit("embedded schema initialization failed: ");
            reveal_strlit("secure project loading requires Linux openat2 containment on this platform");
        }
        match self {
            ProjectLoadError::Io(m) => {
                let mut s = String::new();
                crate::text::string_push_str(&mut s, "project I/O failed: ");
                crate::text::string_push_str(&mut s, m.as_str());
                s
            },
            ProjectLoadError::Schema(m) => {
                let mut s = String::new();
                crate::text::string_push_str(&mut s, "embedded schema initialization failed: ");
                crate::text::string_push_str(&mut s, m.as_str());
                s
            },
            ProjectLoadError::UnsupportedPlatform => {
                let mut s = String::new();
                crate::text::string_push_str(&mut s, "secure project loading requires Linux openat2 containment on this platform");
                s
            },
        }
    }
}

/// The object kind that a canonical file's location demands.
#[derive(Clone, Copy, Debug, PartialEq, Eq)]
pub enum ExpectedLayout {
    Project,
    Node(Option<&'static str>),
    Relation,
    Assessment,
    Thread,
    ThreadBinding,
    ClaimChain,
    ExternalReference,
    Artifact,
    ResearchRun,
    Invalid,
}

pub open spec fn layout_accepts(l: ExpectedLayout, actual: ObjectType) -> bool {
    match (l, actual) {
        (ExpectedLayout::Project, ObjectType::Project) => true,
        (ExpectedLayout::Node(None), ObjectType::Node(_)) => true,
        (ExpectedLayout::Node(Some(expected)), ObjectType::Node(kind)) => expected@ == kind@,
        (ExpectedLayout::Relation, ObjectType::Relation) => true,
        (ExpectedLayout::Assessment, ObjectType::Assessment) => true,
        (ExpectedLayout::Thread, ObjectType::Thread) => true,
        (ExpectedLayout::ThreadBinding, ObjectType::ThreadBinding) => true,
        (ExpectedLayout::ClaimChain, ObjectType::ClaimChain) => true,
        (ExpectedLayout::ExternalReference, ObjectType::ExternalReference) => true,
        (ExpectedLayout::Artifact, ObjectType::Artifact) => true,
        (ExpectedLayout::ResearchRun, ObjectType::ResearchRun) => true,
        _ => false,
    }
}

pub open spec fn layout_label(l: ExpectedLayout) -> Seq<char> {
    match l {
        ExpectedLayout::Project => "Project"@,
        ExpectedLayout::Node(_) => "NodeRevision"@,
        ExpectedLayout::Relation => "ScientificRelationRevision"@,
        ExpectedLayout::Assessment => "Assessment"@,
        ExpectedLayout::Thread => "ResearchThread"@,
        ExpectedLayout::ThreadBinding => "ThreadBinding"@,
        ExpectedLayout::ClaimChain => "ClaimChainSnapshot"@,
        ExpectedLayout::ExternalReference => "ExternalReference"@,
        ExpectedLayout::Artifact => "ArtifactManifest"@,
        ExpectedLayout::ResearchRun => "ResearchRun"@,
        ExpectedLayout::Invalid => "an object in a canonical v1 directory"@,
    }
}

impl ExpectedLayout {
    /// Whether an object of kind `actual` may stand at this location.
    pub fn accepts(&self, actual: &ObjectType) -> (r: bool)
        ensures
            r == layout_accepts(*self, *actual),
    {
        match (self, actual) {
            (ExpectedLayout::Project, ObjectType::Project) => true,
            (ExpectedLayout::Node(None), ObjectType::Node(_)) => true,
            (ExpectedLayout::Node(Some(expected)), ObjectType::Node(kind)) => str_eq(expected, kind.as_str()),
            (ExpectedLayout::Relation, ObjectType::Relation) => true,
            (ExpectedLayout::Assessment, ObjectType::Assessment) => true,
            (ExpectedLayout::Thread, ObjectType::Thread) => true,
            (ExpectedLayout::ThreadBinding, ObjectType::ThreadBinding) => true,
            (ExpectedLayout::ClaimChain, ObjectType::ClaimChain) => true,
            (ExpectedLayout::ExternalReference, ObjectType::ExternalReference) => true,
            (ExpectedLayout::Artifact, ObjectType::Artifact) => true,
            (ExpectedLayout::ResearchRun, ObjectType::ResearchRun) => true,
            _ => false,
        }
    }

    /// The name of the expected kind, for diagnostics.
    pub fn label(&self) -> (s: &'static str)
        ensures
            s@ == layout_label(*self),
    {
        proof {
            reveal_strlit("Project");
            reveal_strlit("NodeRevision");
            reveal_strlit("ScientificRelationRevision");
            reveal_strlit("Assessment");
            reveal_strlit("ResearchThread");
            reveal_strlit("ThreadBinding");
            reveal_strlit("ClaimChainSnapshot");
            reveal_strlit("ExternalReference");
            reveal_strlit("ArtifactManifest");
            reveal_strlit("ResearchRun");
            reveal_strlit("an object in a canonical v1 directory");
        }
        match self {
            ExpectedLayout::Project => "Project",
            ExpectedLayout::Node(_) => "NodeRevision",
            ExpectedLayout::Relation => "ScientificRelationRevision",
            ExpectedLayout::Assessment => "Assessment",
            ExpectedLayout::Thread => "ResearchThread",
            ExpectedLayout::ThreadBinding => "ThreadBinding",
            ExpectedLayout::ClaimChain => "ClaimChainSnapshot",
            ExpectedLayout::ExternalReference => "ExternalReference",
            ExpectedLayout::Artifact => "ArtifactManifest",
            ExpectedLayout::ResearchRun => "ResearchRun",
            ExpectedLayout::Invalid => "an object in a canonical v1 directory",
        }
    }
}

/// The node kind stored under a `records/` subdirectory.
pub open spec fn directory_node_kind(d: Seq<char>) -> Option<Seq<char>> {
    if d == "datasets"@ {
        Some("Dataset"@)
    } else if d == "questions"@ {
        Some("Question"@)
    } else if d == "hypotheses"@ {
        Some("Hypothesis"@)
    } else if d == "observations"@ {
        Some("Observation"@)
    } else if d == "measurements"@ {
        Some("Measurement"@)
    } else if d == "methods"@ {
        Some("Method"@)
    } else if d == "tests"@ {
        Some("Test"@)
    } else if d == "predictions"@ {
        Some("Prediction"@)
    } else if d == "syntheses"@ {
        Some("Synthesis"@)
    } else if d == "interpretations"@ {
        Some("Interpretation"@)
    } else if d == "decisions"@ {
        Some("Decision"@)
    } else if d == "conclusions"@ {
        Some("Conclusion"@)
    } else if d == "blockers"@ {
        Some("Blocker"@)
    } else if d == "next-actions"@ {
        Some("NextAction"@)
    } else if d == "paper-claims"@ {
        Some("PaperClaim"@)
    } else {
        None
    }
}

/// The `records/` directories: exactly the fifteen listed names hold a node kind, each
/// kind has one directory, and a directory is named by its kind: it starts with the
/// kind's initial in lower case, is no shorter than the kind, and ends in the plural `s`.
pub proof fn law_node_kind_directories(d: Seq<char>, e: Seq<char>)
    ensures
        directory_node_kind(d) is Some <==> set!["datasets"@, "questions"@, "hypotheses"@, "observations"@, "measurements"@, "methods"@, "tests"@, "predictions"@, "syntheses"@, "interpretations"@, "decisions"@, "conclusions"@, "blockers"@, "next-actions"@, "paper-claims"@].contains(d),
        directory_node_kind(d) matches Some(k) ==> set!["Dataset"@, "Question"@, "Hypothesis"@, "Observation"@, "Measurement"@, "Method"@, "Test"@, "Prediction"@, "Synthesis"@, "Interpretation"@, "Decision"@, "Conclusion"@, "Blocker"@, "NextAction"@, "PaperClaim"@].contains(k),
        directory_node_kind(d) is Some && directory_node_kind(d) == directory_node_kind(e) ==> d == e,
        directory_node_kind(d) matches Some(k) ==> d.len() >= k.len(),
        directory_node_kind(d) matches Some(k) ==> d[0] as u32 == k[0] as u32 + 32,
        directory_node_kind(d) matches Some(k) ==> d.last() == 's',
        directory_node_kind(d) matches Some(k) ==> d[1] == k[1] && d[2] == k[2],
{
    reveal_strlit("datasets");
    reveal_strlit("questions");
    reveal_strlit("hypotheses");
    reveal_strlit("observations");
    reveal_strlit("measurements");
    reveal_strlit("methods");
    reveal_strlit("tests");
    reveal_strlit("predictions");
    reveal_strlit("syntheses");
    reveal_strlit("interpretations");
    reveal_strlit("decisions");
    reveal_strlit("conclusions");
    reveal_strlit("blockers");
    reveal_strlit("next-actions");
    reveal_strlit("paper-claims");
    reveal_strlit("Dataset");
    reveal_strlit("Question");
    reveal_strlit("Hypothesis");
    reveal_strlit("Observation");
    reveal_strlit("Measurement");
    reveal_strlit("Method");
    reveal_strlit("Test");
    reveal_strlit("Prediction");
    reveal_strlit("Synthesis");
    reveal_strlit("Interpretation");
    reveal_strlit("Decision");
    reveal_strlit("Conclusion");
    reveal_strlit("Blocker");
    reveal_strlit("NextAction");
    reveal_strlit("PaperClaim");
    assert("datasets"@.len() == 8 && "datasets"@[0] == 'd' && "datasets"@[1] == 'a' && "datasets"@.last() == 's' && "datasets"@[2] == 't');
    assert("questions"@.len() == 9 && "questions"@[0] == 'q' && "questions"@[1] == 'u' && "questions"@.last() == 's' && "questions"@[2] == 'e');
    assert("hypotheses"@.len() == 10 && "hypotheses"@[0] == 'h' && "hypotheses"@[1] == 'y' && "hypotheses"@.last() == 's' && "hypotheses"@[2] == 'p');
    assert("observations"@.len() == 12 && "observations"@[0] == 'o' && "observations"@[1] == 'b' && "observations"@.last() == 's' && "observations"@[2] == 's');
    assert("measurements"@.len() == 12 && "measurements"@[0] == 'm' && "measurements"@[1] == 'e' && "measurements"@.last() == 's' && "measurements"@[2] == 'a');
    assert("methods"@.len() == 7 && "methods"@[0] == 'm' && "methods"@[1] == 'e' && "methods"@.last() == 's' && "methods"@[2] == 't');
    assert("tests"@.len() == 5 && "tests"@[0] == 't' && "tests"@[1] == 'e' && "tests"@.last() == 's' && "tests"@[2] == 's');
    assert("predictions"@.len() == 11 && "predictions"@[0] == 'p' && "predictions"@[1] == 'r' && "predictions"@.last() == 's' && "predictions"@[2] == 'e');
    assert("syntheses"@.len() == 9 && "syntheses"@[0] == 's' && "syntheses"@[1] == 'y' && "syntheses"@.last() == 's' && "syntheses"@[2] == 'n');
    assert("interpretations"@.len() == 15 && "interpretations"@[0] == 'i' && "interpretations"@[1] == 'n' && "interpretations"@.last() == 's' && "interpretations"@[2] == 't');
    assert("decisions"@.len() == 9 && "decisions"@[0] == 'd' && "decisions"@[1] == 'e' && "decisions"@.last() == 's' && "decisions"@[2] == 'c');
    assert("conclusions"@.len() == 11 && "conclusions"@[0] == 'c' && "conclusions"@[1] == 'o' && "conclusions"@.last() == 's' && "conclusions"@[2] == 'n');
    assert("blockers"@.len() == 8 && "blockers"@[0] == 'b' && "blockers"@[1] == 'l' && "blockers"@.last() == 's' && "blockers"@[2] == 'o');
    assert("next-actions"@.len() == 12 && "next-actions"@[0] == 'n' && "next-actions"@[1] == 'e' && "next-actions"@.last() == 's' && "next-actions"@[2] == 'x');
    assert("paper-claims"@.len() == 12 && "paper-claims"@[0] == 'p' && "paper-claims"@[1] == 'a' && "paper-claims"@.last() == 's' && "paper-claims"@[2] == 'p');
    assert("Dataset"@.len() == 7 && "Dataset"@[0] == 'D' && "Dataset"@[1] == 'a' && "Dataset"@.last() == 't' && "Dataset"@[2] == 't');
    assert("Question"@.len() == 8 && "Question"@[0] == 'Q' && "Question"@[1] == 'u' && "Question"@.last() == 'n' && "Question"@[2] == 'e');
    assert("Hypothesis"@.len() == 10 && "Hypothesis"@[0] == 'H' && "Hypothesis"@[1] == 'y' && "Hypothesis"@.last() == 's' && "Hypothesis"@[2] == 'p');
    assert("Observation"@.len() == 11 && "Observation"@[0] == 'O' && "Observation"@[1] == 'b' && "Observation"@.last() == 'n' && "Observation"@[2] == 's');
    assert("Measurement"@.len() == 11 && "Measurement"@[0] == 'M' && "Measurement"@[1] == 'e' && "Measurement"@.last() == 't' && "Measurement"@[2] == 'a');
    assert("Method"@.len() == 6 && "Method"@[0] == 'M' && "Method"@[1] == 'e' && "Method"@.last() == 'd' && "Method"@[2] == 't');
    assert("Test"@.len() == 4 && "Test"@[0] == 'T' && "Test"@[1] == 'e' && "Test"@.last() == 't' && "Test"@[2] == 's');
    assert("Prediction"@.len() == 10 && "Prediction"@[0] == 'P' && "Prediction"@[1] == 'r' && "Prediction"@.last() == 'n' && "Prediction"@[2] == 'e');
    assert("Synthesis"@.len() == 9 && "Synthesis"@[0] == 'S' && "Synthesis"@[1] == 'y' && "Synthesis"@.last() == 's' && "Synthesis"@[2] == 'n');
    assert("Interpretation"@.len() == 14 && "Interpretation"@[0] == 'I' && "Interpretation"@[1] == 'n' && "Interpretation"@.last() == 'n' && "Interpretation"@[2] == 't');
    assert("Decision"@.len() == 8 && "Decision"@[0] == 'D' && "Decision"@[1] == 'e' && "Decision"@.last() == 'n' && "Decision"@[2] == 'c');
    assert("Conclusion"@.len() == 10 && "Conclusion"@[0] == 'C' && "Conclusion"@[1] == 'o' && "Conclusion"@.last() == 'n' && "Conclusion"@[2] == 'n');
    assert("Blocker"@.len() == 7 && "Blocker"@[0] == 'B' && "Blocker"@[1] == 'l' && "Blocker"@.last() == 'r' && "Blocker"@[2] == 'o');
    assert("NextAction"@.len() == 10 && "NextAction"@[0] == 'N' && "NextAction"@[1] == 'e' && "NextAction"@.last() == 'n' && "NextAction"@[2] == 'x');
    assert("PaperClaim"@.len() == 10 && "PaperClaim"@[0] == 'P' && "PaperClaim"@[1] == 'a' && "PaperClaim"@.last() == 'm' && "PaperClaim"@[2] == 'p');
}

/// The node kind stored under the given `records/` subdirectory.
pub fn node_kind_for_directory(directory: &str) -> (r: Option<&'static str>)
    ensures
        match r {
            Some(k) => directory_node_kind(directory@) == Some(k@),
            None => directory_node_kind(directory@) is None,
        },
{
    proof {
        reveal_strlit("datasets");
        reveal_strlit("Dataset");
        reveal_strlit("questions");
        reveal_strlit("Question");
        reveal_strlit("hypotheses");
        reveal_strlit("Hypothesis");
        reveal_strlit("observations");
        reveal_strlit("Observation");
        reveal_strlit("measurements");
        reveal_strlit("Measurement");
        reveal_strlit("methods");
        reveal_strlit("Method");
        reveal_strlit("tests");
        reveal_strlit("Test");
        reveal_strlit("predictions");
        reveal_strlit("Prediction");
        reveal_strlit("syntheses");
        reveal_strlit("Synthesis");
        reveal_strlit("interpretations");
        reveal_strlit("Interpretation");
        reveal_strlit("decisions");
        reveal_strlit("Decision");
        reveal_strlit("conclusions");
        reveal_strlit("Conclusion");
        reveal_strlit("blockers");
        reveal_strlit("Blocker");
        reveal_strlit("next-actions");
        reveal_strlit("NextAction");
        reveal_strlit("paper-claims");
        reveal_strlit("PaperClaim");
    }
    if str_eq(directory, "datasets") {
        Some("Dataset")
    } else if str_eq(directory, "questions") {
        Some("Question")
    } else if str_eq(directory, "hypotheses") {
        Some("Hypothesis")
    } else if str_eq(directory, "observations") {
        Some("Observation")
    } else if str_eq(directory, "measurements") {
        Some("Measurement")
    } else if str_eq(directory, "methods") {
        Some("Method")
    } else if str_eq(directory, "tests") {
        Some("Test")
    } else if str_eq(directory, "predictions") {
        Some("Prediction")
    } else if str_eq(directory, "syntheses") {
        Some("Synthesis")
    } else if str_eq(directory, "interpretations") {
        Some("Interpretation")
    } else if str_eq(directory, "decisions") {
        Some("Decision")
    } else if str_eq(directory, "conclusions") {
        Some("Conclusion")
    } else if str_eq(directory, "blockers") {
        Some("Blocker")
    } else if str_eq(directory, "next-actions") {
        Some("NextAction")
    } else if str_eq(directory, "paper-claims") {
        Some("PaperClaim")
    } else {
        None
    }
}

/// A filename slug: nonempty lowercase ASCII letters, digits and single inner hyphens.
pub open spec fn is_slug(s: Seq<char>) -> bool {
    &&& s.len() > 0
    &&& s[0] != '-'
    &&& s[s.len() - 1] != '-'
    &&& forall|i: int| 0 <= i < s.len() ==> ('a' <= #[trigger] s[i] <= 'z' || '0' <= s[i] <= '9' || s[i] == '-')
    &&& forall|i: int| 0 <= i < s.len() - 1 ==> !(#[trigger] s[i] == '-' && s[i + 1] == '-')
}

/// Whether `slug` is a filename slug.
pub fn is_filename_slug(slug: &str) -> (r: bool)
    ensures
        r == is_slug(slug@),
{
    let c = str_chars(slug);
    let n = c.len();
    if n == 0 || c[0] == '-' || c[n - 1] == '-' {
        return false;
    }
    let mut i: usize = 0;
    while i < n
        invariant
            c@ == slug@,
            n == c@.len(),
            i <= n,
            forall|k: int| 0 <= k < i ==> ('a' <= #[trigger] c@[k] <= 'z' || '0' <= c@[k] <= '9' || c@[k] == '-'),
            forall|k: int| 0 <= k < i && k < n - 1 ==> !(#[trigger] c@[k] == '-' && c@[k + 1] == '-'),
        decreases n - i,
    {
        let ch = c[i];
        if !(('a' <= ch && ch <= 'z') || ('0' <= ch && ch <= '9') || ch == '-') {
            return false;
        }
        if ch == '-' && i + 1 < n && c[i + 1] == '-' {
            return false;
        }
        i = i + 1;
    }
    true
}

/// A validation finding about a file's location.
pub fn path_finding(
    code: &'static str,
    family: &'static str,
    message: &'static str,
    source_file: Option<ProjectPath>,
) -> (f: Finding)
    ensures
        f.error_code == code,
        f.finding_family == family,
        f.severity == Severity::Error,
        f.message@ == sanitized(message@),
        f.source_file == source_file,
        f.json_pointer@ == Seq::<char>::empty(),
{
    proof {
        reveal_strlit("");
    }
    Finding::new(code, family, Severity::Error, message, source_file, "")
}

/// A validation finding about an exhausted resource budget.
pub fn resource_finding(code: &'static str, message: &'static str, source_file: Option<ProjectPath>) -> (f: Finding)
    ensures
        f.error_code == code,
        f.finding_family@ == "resource_limit"@,
        f.severity == Severity::Error,
        f.message@ == sanitized(message@),
        f.source_file == source_file,
        f.json_pointer@ == Seq::<char>::empty(),
{
    proof {
        reveal_strlit("");
        reveal_strlit("resource_limit");
    }
    Finding::new(code, "resource_limit", Severity::Error, message, source_file, "")
}

/// Which node kinds a scientific relation type may connect.
pub open spec fn relation_compatible(relation: Seq<char>, from: Seq<char>, to: Seq<char>) -> bool {
    if relation == "derived-from"@ || relation == "depends-on"@ {
        true
    } else if relation == "has-part"@ {
        (from == "Dataset"@ || from == "Method"@ || from == "Synthesis"@) && (to == "Dataset"@ || to == "Method"@ || to == "Observation"@ || to == "Measurement"@ || to == "PaperClaim"@)
    } else if relation == "input-to"@ {
        (from == "Dataset"@ || from == "Observation"@ || from == "Measurement"@ || from == "PaperClaim"@ || from == "Method"@) && (to == "Synthesis"@)
    } else if relation == "generated"@ {
        (from == "Synthesis"@) && (to == "Observation"@ || to == "Measurement"@ || to == "Interpretation"@ || to == "Decision"@ || to == "Conclusion"@)
    } else if relation == "cites"@ {
        to == "PaperClaim"@
    } else if relation == "implements"@ {
        (from == "Method"@ || from == "Test"@) && (to == "Prediction"@ || to == "Test"@)
    } else if relation == "supports"@ || relation == "weakens"@ || relation == "contradicts"@ || relation == "consistent-with"@ {
        (from == "Observation"@ || from == "Measurement"@ || from == "PaperClaim"@ || from == "Synthesis"@) && (to == "Hypothesis"@ || to == "Prediction"@ || to == "Interpretation"@ || to == "Conclusion"@)
    } else if relation == "provides-prior"@ {
        (from == "Dataset"@ || from == "Observation"@ || from == "Measurement"@ || from == "PaperClaim"@) && (to == "Hypothesis"@ || to == "Method"@ || to == "Test"@)
    } else if relation == "motivates"@ {
        (from == "Question"@) && (to == "Hypothesis"@)
    } else if relation == "predicts"@ {
        (from == "Hypothesis"@) && (to == "Prediction"@)
    } else if relation == "tested-by"@ {
        (from == "Hypothesis"@ || from == "Prediction"@) && (to == "Test"@)
    } else if relation == "result-of"@ {
        (from == "Observation"@ || from == "Measurement"@) && (to == "Test"@)
    } else if relation == "observed-in"@ {
        (from == "Observation"@ || from == "Measurement"@) && (to == "Dataset"@)
    } else if relation == "reproduces"@ || relation == "fails-to-reproduce"@ {
        (from == "Observation"@ || from == "Measurement"@ || from == "Test"@) && (to == "Observation"@ || to == "Measurement"@ || to == "Test"@)
    } else if relation == "validated-by"@ {
        (from == "Dataset"@ || from == "Observation"@ || from == "Measurement"@ || from == "Method"@) && (to == "Method"@ || to == "Test"@)
    } else if relation == "requires"@ {
        from == "Method"@ || from == "Test"@ || from == "Synthesis"@ || from == "Decision"@ || from == "NextAction"@
    } else if relation == "blocked-by"@ {
        (from == "Decision"@ || from == "NextAction"@) && (to == "Blocker"@)
    } else if relation == "enables"@ {
        (from == "Dataset"@ || from == "Observation"@ || from == "Measurement"@ || from == "Method"@ || from == "Test"@ || from == "Synthesis"@ || from == "Decision"@ || from == "Conclusion"@) && (to == "Method"@ || to == "Test"@ || to == "Synthesis"@ || to == "Decision"@ || to == "NextAction"@)
    } else if relation == "next-step"@ {
        (from == "Question"@ || from == "Hypothesis"@ || from == "Interpretation"@ || from == "Decision"@ || from == "Blocker"@ || from == "Conclusion"@ || from == "NextAction"@) && (to == "NextAction"@)
    } else {
        false
    }
}

/// Which node kinds each scientific relation type may join, as sets of kinds for its
/// source and its target: `derived-from` and `depends-on` join any kinds, `cites` any
/// source to a `PaperClaim`, `requires` any target from the listed sources, and a type
/// outside this list joins nothing.
pub proof fn law_relation_endpoint_kinds(relation: Seq<char>, from: Seq<char>, to: Seq<char>)
    ensures
        relation_compatible("derived-from"@, from, to) == (true),
        relation_compatible("depends-on"@, from, to) == (true),
        relation_compatible("has-part"@, from, to) == (set!["Dataset"@, "Method"@, "Synthesis"@].contains(from) && set!["Dataset"@, "Method"@, "Observation"@, "Measurement"@, "PaperClaim"@].contains(to)),
        relation_compatible("input-to"@, from, to) == (set!["Dataset"@, "Observation"@, "Measurement"@, "PaperClaim"@, "Method"@].contains(from) && set!["Synthesis"@].contains(to)),
        relation_compatible("generated"@, from, to) == (set!["Synthesis"@].contains(from) && set!["Observation"@, "Measurement"@, "Interpretation"@, "Decision"@, "Conclusion"@].contains(to)),
        relation_compatible("cites"@, from, to) == (set!["PaperClaim"@].contains(to)),
        relation_compatible("implements"@, from, to) == (set!["Method"@, "Test"@].contains(from) && set!["Prediction"@, "Test"@].contains(to)),
        relation_compatible("supports"@, from, to) == (set!["Observation"@, "Measurement"@, "PaperClaim"@, "Synthesis"@].contains(from) && set!["Hypothesis"@, "Prediction"@, "Interpretation"@, "Conclusion"@].contains(to)),
        relation_compatible("weakens"@, from, to) == (set!["Observation"@, "Measurement"@, "PaperClaim"@, "Synthesis"@].contains(from) && set!["Hypothesis"@, "Prediction"@, "Interpretation"@, "Conclusion"@].contains(to)),
        relation_compatible("contradicts"@, from, to) == (set!["Observation"@, "Measurement"@, "PaperClaim"@, "Synthesis"@].contains(from) && set!["Hypothesis"@, "Prediction"@, "Interpretation"@, "Conclusion"@].contains(to)),
        relation_compatible("consistent-with"@, from, to) == (set!["Observation"@, "Measurement"@, "PaperClaim"@, "Synthesis"@].contains(from) && set!["Hypothesis"@, "Prediction"@, "Interpretation"@, "Conclusion"@].contains(to)),
        relation_compatible("provides-prior"@, from, to) == (set!["Dataset"@, "Observation"@, "Measurement"@, "PaperClaim"@].contains(from) && set!["Hypothesis"@, "Method"@, "Test"@].contains(to)),
        relation_compatible("motivates"@, from, to) == (set!["Question"@].contains(from) && set!["Hypothesis"@].contains(to)),
        relation_compatible("predicts"@, from, to) == (set!["Hypothesis"@].contains(from) && set!["Prediction"@].contains(to)),
        relation_compatible("tested-by"@, from, to) == (set!["Hypothesis"@, "Prediction"@].contains(from) && set!["Test"@].contains(to)),
        relation_compatible("result-of"@, from, to) == (set!["Observation"@, "Measurement"@].contains(from) && set!["Test"@].contains(to)),
        relation_compatible("observed-in"@, from, to) == (set!["Observation"@, "Measurement"@].contains(from) && set!["Dataset"@].contains(to)),
        relation_compatible("reproduces"@, from, to) == (set!["Observation"@, "Measurement"@, "Test"@].contains(from) && set!["Observation"@, "Measurement"@, "Test"@].contains(to)),
        relation_compatible("fails-to-reproduce"@, from, to) == (set!["Observation"@, "Measurement"@, "Test"@].contains(from) && set!["Observation"@, "Measurement"@, "Test"@].contains(to)),
        relation_compatible("validated-by"@, from, to) == (set!["Dataset"@, "Observation"@, "Measurement"@, "Method"@].contains(from) && set!["Method"@, "Test"@].contains(to)),
        relation_compatible("requires"@, from, to) == (set!["Method"@, "Test"@, "Synthesis"@, "Decision"@, "NextAction"@].contains(from)),
        relation_compatible("blocked-by"@, from, to) == (set!["Decision"@, "NextAction"@].contains(from) && set!["Blocker"@].contains(to)),
        relation_compatible("enables"@, from, to) == (set!["Dataset"@, "Observation"@, "Measurement"@, "Method"@, "Test"@, "Synthesis"@, "Decision"@, "Conclusion"@].contains(from) && set!["Method"@, "Test"@, "Synthesis"@, "Decision"@, "NextAction"@].contains(to)),
        relation_compatible("next-step"@, from, to) == (set!["Question"@, "Hypothesis"@, "Interpretation"@, "Decision"@, "Blocker"@, "Conclusion"@, "NextAction"@].contains(from) && set!["NextAction"@].contains(to)),
        !set!["derived-from"@, "depends-on"@, "has-part"@, "input-to"@, "generated"@, "cites"@, "implements"@, "supports"@, "weakens"@, "contradicts"@, "consistent-with"@, "provides-prior"@, "motivates"@, "predicts"@, "tested-by"@, "result-of"@, "observed-in"@, "reproduces"@, "fails-to-reproduce"@, "validated-by"@, "requires"@, "blocked-by"@, "enables"@, "next-step"@].contains(relation) ==> !relation_compatible(relation, from, to),
{
    reveal_strlit("Blocker");
    reveal_strlit("Conclusion");
    reveal_strlit("Dataset");
    reveal_strlit("Decision");
    reveal_strlit("Hypothesis");
    reveal_strlit("Interpretation");
    reveal_strlit("Measurement");
    reveal_strlit("Method");
    reveal_strlit("NextAction");
    reveal_strlit("Observation");
    reveal_strlit("PaperClaim");
    reveal_strlit("Prediction");
    reveal_strlit("Question");
    reveal_strlit("Synthesis");
    reveal_strlit("Test");
    reveal_strlit("blocked-by");
    reveal_strlit("cites");
    reveal_strlit("consistent-with");
    reveal_strlit("contradicts");
    reveal_strlit("depends-on");
    reveal_strlit("derived-from");
    reveal_strlit("enables");
    reveal_strlit("fails-to-reproduce");
    reveal_strlit("generated");
    reveal_strlit("has-part");
    reveal_strlit("implements");
    reveal_strlit("input-to");
    reveal_strlit("motivates");
    reveal_strlit("next-step");
    reveal_strlit("observed-in");
    reveal_strlit("predicts");
    reveal_strlit("provides-prior");
    reveal_strlit("reproduces");
    reveal_strlit("requires");
    reveal_strlit("result-of");
    reveal_strlit("supports");
    reveal_strlit("tested-by");
    reveal_strlit("validated-by");
    reveal_strlit("weakens");
    assert("Blocker"@.len() == 7 && "Blocker"@[0] == 'B' && "Blocker"@[1] == 'l');
    assert("Conclusion"@.len() == 10 && "Conclusion"@[0] == 'C' && "Conclusion"@[1] == 'o');
    assert("Dataset"@.len() == 7 && "Dataset"@[0] == 'D' && "Dataset"@[1] == 'a');
    assert("Decision"@.len() == 8 && "Decision"@[0] == 'D' && "Decision"@[1] == 'e');
    assert("Hypothesis"@.len() == 10 && "Hypothesis"@[0] == 'H' && "Hypothesis"@[1] == 'y');
    assert("Interpretation"@.len() == 14 && "Interpretation"@[0] == 'I' && "Interpretation"@[1] == 'n');
    assert("Measurement"@.len() == 11 && "Measurement"@[0] == 'M' && "Measurement"@[1] == 'e');
    assert("Method"@.len() == 6 && "Method"@[0] == 'M' && "Method"@[1] == 'e');
    assert("NextAction"@.len() == 10 && "NextAction"@[0] == 'N' && "NextAction"@[1] == 'e');
    assert("Observation"@.len() == 11 && "Observation"@[0] == 'O' && "Observation"@[1] == 'b');
    assert("PaperClaim"@.len() == 10 && "PaperClaim"@[0] == 'P' && "PaperClaim"@[1] == 'a');
    assert("Prediction"@.len() == 10 && "Prediction"@[0] == 'P' && "Prediction"@[1] == 'r');
    assert("Question"@.len() == 8 && "Question"@[0] == 'Q' && "Question"@[1] == 'u');
    assert("Synthesis"@.len() == 9 && "Synthesis"@[0] == 'S' && "Synthesis"@[1] == 'y');
    assert("Test"@.len() == 4 && "Test"@[0] == 'T' && "Test"@[1] == 'e');
    assert("blocked-by"@.len() == 10 && "blocked-by"@[0] == 'b' && "blocked-by"@[1] == 'l');
    assert("cites"@.len() == 5 && "cites"@[0] == 'c' && "cites"@[1] == 'i');
    assert("consistent-with"@.len() == 15 && "consistent-with"@[0] == 'c' && "consistent-with"@[1] == 'o');
    assert("contradicts"@.len() == 11 && "contradicts"@[0] == 'c' && "contradicts"@[1] == 'o');
    assert("depends-on"@.len() == 10 && "depends-on"@[0] == 'd' && "depends-on"@[1] == 'e');
    assert("derived-from"@.len() == 12 && "derived-from"@[0] == 'd' && "derived-from"@[1] == 'e');
    assert("enables"@.len() == 7 && "enables"@[0] == 'e' && "enables"@[1] == 'n');
    assert("fails-to-reproduce"@.len() == 18 && "fails-to-reproduce"@[0] == 'f' && "fails-to-reproduce"@[1] == 'a');
    assert("generated"@.len() == 9 && "generated"@[0] == 'g' && "generated"@[1] == 'e');
    assert("has-part"@.len() == 8 && "has-part"@[0] == 'h' && "has-part"@[1] == 'a');
    assert("implements"@.len() == 10 && "implements"@[0] == 'i' && "implements"@[1] == 'm');
    assert("input-to"@.len() == 8 && "input-to"@[0] == 'i' && "input-to"@[1] == 'n');
    assert("motivates"@.len() == 9 && "motivates"@[0] == 'm' && "motivates"@[1] == 'o');
    assert("next-step"@.len() == 9 && "next-step"@[0] == 'n' && "next-step"@[1] == 'e');
    assert("observed-in"@.len() == 11 && "observed-in"@[0] == 'o' && "observed-in"@[1] == 'b');
    assert("predicts"@.len() == 8 && "predicts"@[0] == 'p' && "predicts"@[1] == 'r');
    assert("provides-prior"@.len() == 14 && "provides-prior"@[0] == 'p' && "provides-prior"@[1] == 'r');
    assert("reproduces"@.len() == 10 && "reproduces"@[0] == 'r' && "reproduces"@[1] == 'e');
    assert("requires"@.len() == 8 && "requires"@[0] == 'r' && "requires"@[1] == 'e');
    assert("result-of"@.len() == 9 && "result-of"@[0] == 'r' && "result-of"@[1] == 'e');
    assert("supports"@.len() == 8 && "supports"@[0] == 's' && "supports"@[1] == 'u');
    assert("tested-by"@.len() == 9 && "tested-by"@[0] == 't' && "tested-by"@[1] == 'e');
    assert("validated-by"@.len() == 12 && "validated-by"@[0] == 'v' && "validated-by"@[1] == 'a');
    assert("weakens"@.len() == 7 && "weakens"@[0] == 'w' && "weakens"@[1] == 'e');
}

/// Whether a relation of the given type may lead from a node of kind `from` to one
/// of kind `to`.
pub fn relation_kinds_compatible(relation: &str, from: &str, to: &str) -> (r: bool)
    ensures
        r == relation_compatible(relation@, from@, to@),
{
    proof {
        reveal_strlit("Blocker");
        reveal_strlit("Conclusion");
        reveal_strlit("Dataset");
        reveal_strlit("Decision");
        reveal_strlit("Hypothesis");
        reveal_strlit("Interpretation");
        reveal_strlit("Measurement");
        reveal_strlit("Method");
        reveal_strlit("NextAction");
        reveal_strlit("Observation");
        reveal_strlit("PaperClaim");
        reveal_strlit("Prediction");
        reveal_strlit("Question");
        reveal_strlit("Synthesis");
        reveal_strlit("Test");
        reveal_strlit("blocked-by");
        reveal_strlit("cites");
        reveal_strlit("consistent-with");
        reveal_strlit("contradicts");
        reveal_strlit("depends-on");
        reveal_strlit("derived-from");
        reveal_strlit("enables");
        reveal_strlit("fails-to-reproduce");
        reveal_strlit("generated");
        reveal_strlit("has-part");
        reveal_strlit("implements");
        reveal_strlit("input-to");
        reveal_strlit("motivates");
        reveal_strlit("next-step");
        reveal_strlit("observed-in");
        reveal_strlit("predicts");
        reveal_strlit("provides-prior");
        reveal_strlit("reproduces");
        reveal_strlit("requires");
        reveal_strlit("result-of");
        reveal_strlit("supports");
        reveal_strlit("tested-by");
        reveal_strlit("validated-by");
        reveal_strlit("weakens");
    }
    if str_eq(relation, "derived-from") || str_eq(relation, "depends-on") {
        true
    } else if str_eq(relation, "has-part") {
        (str_eq(from, "Dataset") || str_eq(from, "Method") || str_eq(from, "Synthesis")) && (str_eq(to, "Dataset") || str_eq(to, "Method") || str_eq(to, "Observation") || str_eq(to, "Measurement") || str_eq(to, "PaperClaim"))
    } else if str_eq(relation, "input-to") {
        (str_eq(from, "Dataset") || str_eq(from, "Observation") || str_eq(from, "Measurement") || str_eq(from, "PaperClaim") || str_eq(from, "Method")) && (str_eq(to, "Synthesis"))
    } else if str_eq(relation, "generated") {
        (str_eq(from, "Synthesis")) && (str_eq(to, "Observation") || str_eq(to, "Measurement") || str_eq(to, "Interpretation") || str_eq(to, "Decision") || str_eq(to, "Conclusion"))
    } else if str_eq(relation, "cites") {
        str_eq(to, "PaperClaim")
    } else if str_eq(relation, "implements") {
        (str_eq(from, "Method") || str_eq(from, "Test")) && (str_eq(to, "Prediction") || str_eq(to, "Test"))
    } else if str_eq(relation, "supports") || str_eq(relation, "weakens") || str_eq(relation, "contradicts") || str_eq(relation, "consistent-with") {
        (str_eq(from, "Observation") || str_eq(from, "Measurement") || str_eq(from, "PaperClaim") || str_eq(from, "Synthesis")) && (str_eq(to, "Hypothesis") || str_eq(to, "Prediction") || str_eq(to, "Interpretation") || str_eq(to, "Conclusion"))
    } else if str_eq(relation, "provides-prior") {
        (str_eq(from, "Dataset") || str_eq(from, "Observation") || str_eq(from, "Measurement") || str_eq(from, "PaperClaim")) && (str_eq(to, "Hypothesis") || str_eq(to, "Method") || str_eq(to, "Test"))
    } else if str_eq(relation, "motivates") {
        (str_eq(from, "Question")) && (str_eq(to, "Hypothesis"))
    } else if str_eq(relation, "predicts") {
        (str_eq(from, "Hypothesis")) && (str_eq(to, "Prediction"))
    } else if str_eq(relation, "tested-by") {
        (str_eq(from, "Hypothesis") || str_eq(from, "Prediction")) && (str_eq(to, "Test"))
    } else if str_eq(relation, "result-of") {
        (str_eq(from, "Observation") || str_eq(from, "Measurement")) && (str_eq(to, "Test"))
    } else if str_eq(relation, "observed-in") {
        (str_eq(from, "Observation") || str_eq(from, "Measurement")) && (str_eq(to, "Dataset"))
    } else if str_eq(relation, "reproduces") || str_eq(relation, "fails-to-reproduce") {
        (str_eq(from, "Observation") || str_eq(from, "Measurement") || str_eq(from, "Test")) && (str_eq(to, "Observation") || str_eq(to, "Measurement") || str_eq(to, "Test"))
    } else if str_eq(relation, "validated-by") {
        (str_eq(from, "Dataset") || str_eq(from, "Observation") || str_eq(from, "Measurement") || str_eq(from, "Method")) && (str_eq(to, "Method") || str_eq(to, "Test"))
    } else if str_eq(relation, "requires") {
        str_eq(from, "Method") || str_eq(from, "Test") || str_eq(from, "Synthesis") || str_eq(from, "Decision") || str_eq(from, "NextAction")
    } else if str_eq(relation, "blocked-by") {
        (str_eq(from, "Decision") || str_eq(from, "NextAction")) && (str_eq(to, "Blocker"))
    } else if str_eq(relation, "enables") {
        (str_eq(from, "Dataset") || str_eq(from, "Observation") || str_eq(from, "Measurement") || str_eq(from, "Method") || str_eq(from, "Test") || str_eq(from, "Synthesis") || str_eq(from, "Decision") || str_eq(from, "Conclusion")) && (str_eq(to, "Method") || str_eq(to, "Test") || str_eq(to, "Synthesis") || str_eq(to, "Decision") || str_eq(to, "NextAction"))
    } else if str_eq(relation, "next-step") {
        (str_eq(from, "Question") || str_eq(from, "Hypothesis") || str_eq(from, "Interpretation") || str_eq(from, "Decision") || str_eq(from, "Blocker") || str_eq(from, "Conclusion") || str_eq(from, "NextAction")) && (str_eq(to, "NextAction"))
    } else {
        false
    }
}


/// The layout of a top-level canonical directory holding objects directly.
pub open spec fn flat_layout(d: Seq<char>) -> Option<ExpectedLayout> {
    if d == "relations"@ {
        Some(ExpectedLayout::Relation)
    } else if d == "assessments"@ {
        Some(ExpectedLayout::Assessment)
    } else if d == "threads"@ {
        Some(ExpectedLayout::Thread)
    } else if d == "thread-bindings"@ {
        Some(ExpectedLayout::ThreadBinding)
    } else if d == "claim-chains"@ {
        Some(ExpectedLayout::ClaimChain)
    } else if d == "references"@ {
        Some(ExpectedLayout::ExternalReference)
    } else if d == "artifacts"@ {
        Some(ExpectedLayout::Artifact)
    } else if d == "runs"@ {
        Some(ExpectedLayout::ResearchRun)
    } else {
        None
    }
}

/// A canonical top-level directory.
pub open spec fn canonical_directory(d: Seq<char>) -> bool {
    d == "records"@ || flat_layout(d) is Some
}

fn flat_layout_exec(d: &str) -> (r: Option<ExpectedLayout>)
    ensures
        r == flat_layout(d@),
{
    proof {
        reveal_strlit("relations");
        reveal_strlit("assessments");
        reveal_strlit("threads");
        reveal_strlit("thread-bindings");
        reveal_strlit("claim-chains");
        reveal_strlit("references");
        reveal_strlit("artifacts");
        reveal_strlit("runs");
    }
    if str_eq(d, "relations") {
        Some(ExpectedLayout::Relation)
    } else if str_eq(d, "assessments") {
        Some(ExpectedLayout::Assessment)
    } else if str_eq(d, "threads") {
        Some(ExpectedLayout::Thread)
    } else if str_eq(d, "thread-bindings") {
        Some(ExpectedLayout::ThreadBinding)
    } else if str_eq(d, "claim-chains") {
        Some(ExpectedLayout::ClaimChain)
    } else if str_eq(d, "references") {
        Some(ExpectedLayout::ExternalReference)
    } else if str_eq(d, "artifacts") {
        Some(ExpectedLayout::Artifact)
    } else if str_eq(d, "runs") {
        Some(ExpectedLayout::ResearchRun)
    } else {
        None
    }
}

/// The layout a path below `.research/` demands, as `expected_layout` reads it.
pub open spec fn layout_fits(relative: Seq<char>, r: Option<ExpectedLayout>) -> bool {
    &&& (relative == "project.yaml"@ ==> r == Some(ExpectedLayout::Project))
    &&& (relative != "project.yaml"@ && !has_suffix(relative, ".yaml"@) ==> r is None)
    &&& (relative != "project.yaml"@ && has_suffix(relative, ".yaml"@) ==> {
            let p = split_on(relative, '/');
            if p.len() == 3 && p[0] == "records"@ {
                r matches Some(ExpectedLayout::Node(k)) && match k {
                    Some(k) => directory_node_kind(p[1]) == Some(k@),
                    None => directory_node_kind(p[1]) is None,
                }
            } else if p.len() == 2 && flat_layout(p[0]) is Some {
                r == flat_layout(p[0])
            } else if canonical_directory(p[0]) {
                r == Some(ExpectedLayout::Invalid)
            } else {
                r is None
            }
        })
}

/// The object kind demanded by a file's path below `.research/`: the project file,
/// `records/<kind directory>/<file>.yaml` for nodes, `<directory>/<file>.yaml` for the
/// other kinds, `Invalid` for any other YAML file under a canonical directory, and
/// `None` for files outside the canonical layout.
pub fn expected_layout(relative: &str) -> (r: Option<ExpectedLayout>)
    ensures
        layout_fits(relative@, r),
{
    proof {
        reveal_strlit("project.yaml");
        reveal_strlit(".yaml");
        reveal_strlit("records");
    }
    if str_eq(relative, "project.yaml") {
        return Some(ExpectedLayout::Project);
    }
    if !crate::text::ends_with(relative, ".yaml") {
        return None;
    }
    let parts = crate::text::split_str(relative, '/');
    proof {
        crate::text::lemma_split_nonempty(relative@, '/');
    }
    let first = parts[0].as_str();
    if parts.len() == 3 && str_eq(first, "records") {
        return Some(ExpectedLayout::Node(node_kind_for_directory(parts[1].as_str())));
    }
    let flat = flat_layout_exec(first);
    if parts.len() == 2 && flat.is_some() {
        return flat;
    }
    if str_eq(first, "records") || flat.is_some() {
        Some(ExpectedLayout::Invalid)
    } else {
        None
    }
}

} // verus!
