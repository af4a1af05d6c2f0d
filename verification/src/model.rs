//! Canonical object kinds, reference expectations and reference edges.
use vstd::prelude::*;
use vstd::string::StringSliceAdditionalSpecFns;
use vstd::utf8::encode_utf8;

use crate::text::{bytes_lt, compare_bytes, str_eq, string_push_str};

verus! {

/// The kind of a canonical object, by its schema.
#[derive(Clone, Debug, PartialEq, Eq, PartialOrd, Ord)]
pub enum ObjectType {
    Project,
    Node(String),
    Relation,
    Assessment,
    Thread,
    ThreadBinding,
    ClaimChain,
    ExternalReference,
    Artifact,
    ResearchRun,
}

/// The schema identifier of each non-node kind.
pub open spec fn schema_kind(schema: Seq<char>) -> Option<ObjectType> {
    if schema == "rp/project/v1"@ {
        Some(ObjectType::Project)
    } else if schema == "rp/scientific-relation-revision/v1"@ {
        Some(ObjectType::Relation)
    } else if schema == "rp/assessment/v1"@ {
        Some(ObjectType::Assessment)
    } else if schema == "rp/research-thread/v1"@ {
        Some(ObjectType::Thread)
    } else if schema == "rp/thread-binding/v1"@ {
        Some(ObjectType::ThreadBinding)
    } else if schema == "rp/claim-chain-snapshot/v1"@ {
        Some(ObjectType::ClaimChain)
    } else if schema == "rp/external-reference/v1"@ {
        Some(ObjectType::ExternalReference)
    } else if schema == "rp/artifact-manifest/v1"@ {
        Some(ObjectType::Artifact)
    } else if schema == "rp/research-run/v1"@ {
        Some(ObjectType::ResearchRun)
    } else {
        None
    }
}

pub open spec fn object_label(t: ObjectType) -> Seq<char> {
    match t {
        ObjectType::Project => "project"@,
        ObjectType::Node(_) => "node revision"@,
        ObjectType::Relation => "relation revision"@,
        ObjectType::Assessment => "assessment"@,
        ObjectType::Thread => "research thread"@,
        ObjectType::ThreadBinding => "thread binding"@,
        ObjectType::ClaimChain => "claim-chain snapshot"@,
        ObjectType::ExternalReference => "external reference"@,
        ObjectType::Artifact => "artifact manifest"@,
        ObjectType::ResearchRun => "research run"@,
    }
}

impl ObjectType {
    /// The object kind of a schema identifier; node revisions also need their kind.
    pub fn from_schema(schema: &str, kind: Option<&str>) -> (r: Option<ObjectType>)
        ensures
            schema@ == "rp/node-revision/v1"@ ==> (match kind {
                Some(k) => r matches Some(ObjectType::Node(n)) && n@ == k@,
                None => r is None,
            }),
            schema@ != "rp/node-revision/v1"@ ==> r == schema_kind(schema@),
    {
        proof {
            reveal_strlit("rp/project/v1");
            reveal_strlit("rp/node-revision/v1");
            reveal_strlit("rp/scientific-relation-revision/v1");
            reveal_strlit("rp/assessment/v1");
            reveal_strlit("rp/research-thread/v1");
            reveal_strlit("rp/thread-binding/v1");
            reveal_strlit("rp/claim-chain-snapshot/v1");
            reveal_strlit("rp/external-reference/v1");
            reveal_strlit("rp/artifact-manifest/v1");
            reveal_strlit("rp/research-run/v1");
        }
        if str_eq(schema, "rp/node-revision/v1") {
            return match kind {
                Some(k) => Some(ObjectType::Node(k.to_owned())),
                None => None,
            };
        }
        if str_eq(schema, "rp/project/v1") {
            Some(ObjectType::Project)
        } else if str_eq(schema, "rp/scientific-relation-revision/v1") {
            Some(ObjectType::Relation)
        } else if str_eq(schema, "rp/assessment/v1") {
            Some(ObjectType::Assessment)
        } else if str_eq(schema, "rp/research-thread/v1") {
            Some(ObjectType::Thread)
        } else if str_eq(schema, "rp/thread-binding/v1") {
            Some(ObjectType::ThreadBinding)
        } else if str_eq(schema, "rp/claim-chain-snapshot/v1") {
            Some(ObjectType::ClaimChain)
        } else if str_eq(schema, "rp/external-reference/v1") {
            Some(ObjectType::ExternalReference)
        } else if str_eq(schema, "rp/artifact-manifest/v1") {
            Some(ObjectType::Artifact)
        } else if str_eq(schema, "rp/research-run/v1") {
            Some(ObjectType::ResearchRun)
        } else {
            None
        }
    }

    /// Human-readable kind name.
    pub fn label(&self) -> (s: &'static str)
        ensures
            s@ == object_label(*self),
    {
        proof {
            reveal_strlit("project");
            reveal_strlit("node revision");
            reveal_strlit("relation revision");
            reveal_strlit("assessment");
            reveal_strlit("research thread");
            reveal_strlit("thread binding");
            reveal_strlit("claim-chain snapshot");
            reveal_strlit("external reference");
            reveal_strlit("artifact manifest");
            reveal_strlit("research run");
        }
        match self {
            ObjectType::Project => "project",
            ObjectType::Node(_) => "node revision",
            ObjectType::Relation => "relation revision",
            ObjectType::Assessment => "assessment",
            ObjectType::Thread => "research thread",
            ObjectType::ThreadBinding => "thread binding",
            ObjectType::ClaimChain => "claim-chain snapshot",
            ObjectType::ExternalReference => "external reference",
            ObjectType::Artifact => "artifact manifest",
            ObjectType::ResearchRun => "research run",
        }
    }
}

/// The kind of object a reference must resolve to.
#[derive(Clone, Debug, PartialEq, Eq, PartialOrd, Ord)]
pub enum ReferenceExpectation {
    Project,
    Node,
    NodeKind(String),
    Relation,
    Assessment,
    Thread,
    ThreadBinding,
    ClaimChain,
    Artifact,
    ExternalReference,
    ResearchRun,
}

/// Whether an expectation admits an object kind; a node kind must match exactly.
pub open spec fn expectation_accepts(e: ReferenceExpectation, t: ObjectType) -> bool {
    match (e, t) {
        (ReferenceExpectation::Project, ObjectType::Project) => true,
        (ReferenceExpectation::Node, ObjectType::Node(_)) => true,
        (ReferenceExpectation::NodeKind(expected), ObjectType::Node(actual)) => expected@ == actual@,
        (ReferenceExpectation::Relation, ObjectType::Relation) => true,
        (ReferenceExpectation::Assessment, ObjectType::Assessment) => true,
        (ReferenceExpectation::Thread, ObjectType::Thread) => true,
        (ReferenceExpectation::ThreadBinding, ObjectType::ThreadBinding) => true,
        (ReferenceExpectation::ClaimChain, ObjectType::ClaimChain) => true,
        (ReferenceExpectation::Artifact, ObjectType::Artifact) => true,
        (ReferenceExpectation::ExternalReference, ObjectType::ExternalReference) => true,
        (ReferenceExpectation::ResearchRun, ObjectType::ResearchRun) => true,
        _ => false,
    }
}

pub open spec fn expectation_label(e: ReferenceExpectation) -> Seq<char> {
    match e {
        ReferenceExpectation::Project => "project"@,
        ReferenceExpectation::Node => "node revision"@,
        ReferenceExpectation::NodeKind(_) => "node revision"@,
        ReferenceExpectation::Relation => "relation revision"@,
        ReferenceExpectation::Assessment => "assessment"@,
        ReferenceExpectation::Thread => "research thread"@,
        ReferenceExpectation::ThreadBinding => "thread binding"@,
        ReferenceExpectation::ClaimChain => "claim-chain snapshot"@,
        ReferenceExpectation::Artifact => "artifact manifest"@,
        ReferenceExpectation::ExternalReference => "external reference"@,
        ReferenceExpectation::ResearchRun => "research run"@,
    }
}

/// The label of an expectation in the reference fingerprint.
pub open spec fn expectation_fingerprint(e: ReferenceExpectation) -> Seq<char> {
    match e {
        ReferenceExpectation::NodeKind(kind) => "node:"@ + kind@,
        _ => expectation_label(e),
    }
}

/// The exact `rp/*/v1` schema a semantic reference may target.
pub open spec fn schema_expectation(schema: Seq<char>) -> Option<ReferenceExpectation> {
    if schema == "rp/project/v1"@ {
        Some(ReferenceExpectation::Project)
    } else if schema == "rp/node-revision/v1"@ {
        Some(ReferenceExpectation::Node)
    } else if schema == "rp/scientific-relation-revision/v1"@ {
        Some(ReferenceExpectation::Relation)
    } else if schema == "rp/assessment/v1"@ {
        Some(ReferenceExpectation::Assessment)
    } else if schema == "rp/research-thread/v1"@ {
        Some(ReferenceExpectation::Thread)
    } else if schema == "rp/thread-binding/v1"@ {
        Some(ReferenceExpectation::ThreadBinding)
    } else if schema == "rp/claim-chain-snapshot/v1"@ {
        Some(ReferenceExpectation::ClaimChain)
    } else if schema == "rp/artifact-manifest/v1"@ {
        Some(ReferenceExpectation::Artifact)
    } else if schema == "rp/external-reference/v1"@ {
        Some(ReferenceExpectation::ExternalReference)
    } else if schema == "rp/research-run/v1"@ {
        Some(ReferenceExpectation::ResearchRun)
    } else {
        None
    }
}

/// The expectation of a semantic reference declaration's target schema.
pub fn expectation_for_schema(schema: &str) -> (r: Option<ReferenceExpectation>)
    ensures
        r == schema_expectation(schema@),
{
    proof {
        reveal_strlit("rp/project/v1");
        reveal_strlit("rp/node-revision/v1");
        reveal_strlit("rp/scientific-relation-revision/v1");
        reveal_strlit("rp/assessment/v1");
        reveal_strlit("rp/research-thread/v1");
        reveal_strlit("rp/thread-binding/v1");
        reveal_strlit("rp/claim-chain-snapshot/v1");
        reveal_strlit("rp/external-reference/v1");
        reveal_strlit("rp/artifact-manifest/v1");
        reveal_strlit("rp/research-run/v1");
    }
    if str_eq(schema, "rp/project/v1") {
        Some(ReferenceExpectation::Project)
    } else if str_eq(schema, "rp/node-revision/v1") {
        Some(ReferenceExpectation::Node)
    } else if str_eq(schema, "rp/scientific-relation-revision/v1") {
        Some(ReferenceExpectation::Relation)
    } else if str_eq(schema, "rp/assessment/v1") {
        Some(ReferenceExpectation::Assessment)
    } else if str_eq(schema, "rp/research-thread/v1") {
        Some(ReferenceExpectation::Thread)
    } else if str_eq(schema, "rp/thread-binding/v1") {
        Some(ReferenceExpectation::ThreadBinding)
    } else if str_eq(schema, "rp/claim-chain-snapshot/v1") {
        Some(ReferenceExpectation::ClaimChain)
    } else if str_eq(schema, "rp/artifact-manifest/v1") {
        Some(ReferenceExpectation::Artifact)
    } else if str_eq(schema, "rp/external-reference/v1") {
        Some(ReferenceExpectation::ExternalReference)
    } else if str_eq(schema, "rp/research-run/v1") {
        Some(ReferenceExpectation::ResearchRun)
    } else {
        None
    }
}

impl ReferenceExpectation {
    pub fn accepts(&self, actual: &ObjectType) -> (r: bool)
        ensures
            r == expectation_accepts(*self, *actual),
    {
        match (self, actual) {
            (ReferenceExpectation::Project, ObjectType::Project) => true,
            (ReferenceExpectation::Node, ObjectType::Node(_)) => true,
            (ReferenceExpectation::NodeKind(expected), ObjectType::Node(actual)) => str_eq(
                expected.as_str(),
                actual.as_str(),
            ),
            (ReferenceExpectation::Relation, ObjectType::Relation) => true,
            (ReferenceExpectation::Assessment, ObjectType::Assessment) => true,
            (ReferenceExpectation::Thread, ObjectType::Thread) => true,
            (ReferenceExpectation::ThreadBinding, ObjectType::ThreadBinding) => true,
            (ReferenceExpectation::ClaimChain, ObjectType::ClaimChain) => true,
            (ReferenceExpectation::Artifact, ObjectType::Artifact) => true,
            (ReferenceExpectation::ExternalReference, ObjectType::ExternalReference) => true,
            (ReferenceExpectation::ResearchRun, ObjectType::ResearchRun) => true,
            _ => false,
        }
    }

    pub fn label(&self) -> (s: &'static str)
        ensures
            s@ == expectation_label(*self),
    {
        proof {
            reveal_strlit("project");
            reveal_strlit("node revision");
            reveal_strlit("relation revision");
            reveal_strlit("assessment");
            reveal_strlit("research thread");
            reveal_strlit("thread binding");
            reveal_strlit("claim-chain snapshot");
            reveal_strlit("external reference");
            reveal_strlit("artifact manifest");
            reveal_strlit("research run");
        }
        match self {
            ReferenceExpectation::Project => "project",
            ReferenceExpectation::Node | ReferenceExpectation::NodeKind(_) => "node revision",
            ReferenceExpectation::Relation => "relation revision",
            ReferenceExpectation::Assessment => "assessment",
            ReferenceExpectation::Thread => "research thread",
            ReferenceExpectation::ThreadBinding => "thread binding",
            ReferenceExpectation::ClaimChain => "claim-chain snapshot",
            ReferenceExpectation::Artifact => "artifact manifest",
            ReferenceExpectation::ExternalReference => "external reference",
            ReferenceExpectation::ResearchRun => "research run",
        }
    }

    /// The expectation's label in the reference fingerprint (`node:<kind>` for kinds).
    pub fn fingerprint_label(&self) -> (s: String)
        ensures
            s@ == expectation_fingerprint(*self),
    {
        match self {
            ReferenceExpectation::NodeKind(kind) => {
                let mut s = String::new();
                proof {
                    reveal_strlit("node:");
                }
                string_push_str(&mut s, "node:");
                string_push_str(&mut s, kind.as_str());
                s
            },
            _ => self.label().to_owned(),
        }
    }

    /// Position of the variant in declaration order.
    pub fn ordinal(&self) -> (n: u8)
        ensures
            n == expectation_ordinal(*self),
    {
        match self {
            ReferenceExpectation::Project => 0,
            ReferenceExpectation::Node => 1,
            ReferenceExpectation::NodeKind(_) => 2,
            ReferenceExpectation::Relation => 3,
            ReferenceExpectation::Assessment => 4,
            ReferenceExpectation::Thread => 5,
            ReferenceExpectation::ThreadBinding => 6,
            ReferenceExpectation::ClaimChain => 7,
            ReferenceExpectation::Artifact => 8,
            ReferenceExpectation::ExternalReference => 9,
            ReferenceExpectation::ResearchRun => 10,
        }
    }
}

pub open spec fn expectation_ordinal(e: ReferenceExpectation) -> int {
    match e {
        ReferenceExpectation::Project => 0,
        ReferenceExpectation::Node => 1,
        ReferenceExpectation::NodeKind(_) => 2,
        ReferenceExpectation::Relation => 3,
        ReferenceExpectation::Assessment => 4,
        ReferenceExpectation::Thread => 5,
        ReferenceExpectation::ThreadBinding => 6,
        ReferenceExpectation::ClaimChain => 7,
        ReferenceExpectation::Artifact => 8,
        ReferenceExpectation::ExternalReference => 9,
        ReferenceExpectation::ResearchRun => 10,
    }
}

/// Declaration order of expectations; node kinds by their name.
pub open spec fn expectation_lt(a: ReferenceExpectation, b: ReferenceExpectation) -> bool {
    if expectation_ordinal(a) != expectation_ordinal(b) {
        expectation_ordinal(a) < expectation_ordinal(b)
    } else {
        match (a, b) {
            (ReferenceExpectation::NodeKind(x), ReferenceExpectation::NodeKind(y)) => bytes_lt(
                encode_utf8(x@),
                encode_utf8(y@),
            ),
            _ => false,
        }
    }
}

/// The key of an expectation in its order: its position, then a node kind's bytes.
pub open spec fn expectation_key(e: ReferenceExpectation) -> (int, Seq<u8>) {
    match e {
        ReferenceExpectation::NodeKind(k) => (expectation_ordinal(e), encode_utf8(k@)),
        _ => (expectation_ordinal(e), Seq::empty()),
    }
}

proof fn lemma_expectation_lt_key(a: ReferenceExpectation, b: ReferenceExpectation)
    ensures
        expectation_lt(a, b) == (expectation_key(a).0 < expectation_key(b).0 || (expectation_key(a).0
            == expectation_key(b).0 && bytes_lt(expectation_key(a).1, expectation_key(b).1))),
{
    crate::text::lemma_bytes_lt_irreflexive(Seq::<u8>::empty());
    if expectation_ordinal(a) == expectation_ordinal(b) {
        match (a, b) {
            (ReferenceExpectation::NodeKind(x), ReferenceExpectation::NodeKind(y)) => {},
            (ReferenceExpectation::NodeKind(x), _) => {},
            (_, ReferenceExpectation::NodeKind(y)) => {},
            _ => {},
        }
    }
}

/// Strict lexicographic order on pairs of a number and a byte string.
pub open spec fn key_lt(a: (int, Seq<u8>), b: (int, Seq<u8>)) -> bool {
    a.0 < b.0 || (a.0 == b.0 && bytes_lt(a.1, b.1))
}

/// The full key of an edge in its semantic order.
pub open spec fn edge_key(e: ReferenceEdge) -> (Seq<u8>, Seq<u8>, (int, Seq<u8>), Seq<u8>) {
    (
        encode_utf8(e.source_id@),
        encode_utf8(e.target_id@),
        expectation_key(e.expected),
        encode_utf8(e.json_pointer@),
    )
}

proof fn lemma_key_lt_order(a: (int, Seq<u8>), b: (int, Seq<u8>), c: (int, Seq<u8>))
    ensures
        !key_lt(a, a),
        key_lt(a, b) && key_lt(b, c) ==> key_lt(a, c),
        key_lt(a, b) || key_lt(b, a) || a == b,
{
    crate::text::lemma_bytes_lt_irreflexive(a.1);
    crate::text::lemma_bytes_lt_total(a.1, b.1);
    if key_lt(a, b) && key_lt(b, c) && a.0 == b.0 && b.0 == c.0 {
        crate::text::lemma_bytes_lt_transitive(a.1, b.1, c.1);
    }
}

/// Edges compare by their keys, lexicographically.
pub proof fn lemma_edge_lt_key(a: ReferenceEdge, b: ReferenceEdge)
    ensures
        edge_lt(a, b) == {
            let (ka, kb) = (edge_key(a), edge_key(b));
            ||| bytes_lt(ka.0, kb.0)
            ||| ka.0 == kb.0 && bytes_lt(ka.1, kb.1)
            ||| ka.0 == kb.0 && ka.1 == kb.1 && key_lt(ka.2, kb.2)
            ||| ka.0 == kb.0 && ka.1 == kb.1 && ka.2 == kb.2 && bytes_lt(ka.3, kb.3)
        },
{
    let (ka, kb) = (edge_key(a), edge_key(b));
    crate::text::lemma_bytes_lt_total(ka.0, kb.0);
    crate::text::lemma_bytes_lt_total(ka.1, kb.1);
    crate::text::lemma_bytes_lt_irreflexive(ka.0);
    crate::text::lemma_bytes_lt_irreflexive(ka.1);
    crate::text::lemma_bytes_lt_irreflexive(kb.0);
    crate::text::lemma_bytes_lt_irreflexive(kb.1);
    lemma_expectation_lt_key(a.expected, b.expected);
    lemma_expectation_lt_key(b.expected, a.expected);
    lemma_key_lt_order(ka.2, kb.2, kb.2);
    if bytes_lt(ka.0, kb.0) && bytes_lt(kb.0, ka.0) {
        crate::text::lemma_bytes_lt_transitive(ka.0, kb.0, ka.0);
    }
    if bytes_lt(ka.1, kb.1) && bytes_lt(kb.1, ka.1) {
        crate::text::lemma_bytes_lt_transitive(ka.1, kb.1, ka.1);
    }
}

/// The semantic order of edges is a strict order.
pub proof fn lemma_edge_lt_order(a: ReferenceEdge, b: ReferenceEdge, c: ReferenceEdge)
    ensures
        !edge_lt(a, a),
        edge_lt(a, b) && edge_lt(b, c) ==> edge_lt(a, c),
{
    lemma_edge_lt_key(a, a);
    lemma_edge_lt_key(a, b);
    lemma_edge_lt_key(b, c);
    lemma_edge_lt_key(a, c);
    let (ka, kb, kc) = (edge_key(a), edge_key(b), edge_key(c));
    crate::text::lemma_bytes_lt_irreflexive(ka.0);
    crate::text::lemma_bytes_lt_irreflexive(ka.1);
    crate::text::lemma_bytes_lt_irreflexive(ka.3);
    lemma_key_lt_order(ka.2, kb.2, kc.2);
    if edge_lt(a, b) && edge_lt(b, c) {
        if bytes_lt(ka.0, kb.0) && bytes_lt(kb.0, kc.0) {
            crate::text::lemma_bytes_lt_transitive(ka.0, kb.0, kc.0);
        }
        if bytes_lt(ka.1, kb.1) && bytes_lt(kb.1, kc.1) {
            crate::text::lemma_bytes_lt_transitive(ka.1, kb.1, kc.1);
        }
        if bytes_lt(ka.3, kb.3) && bytes_lt(kb.3, kc.3) {
            crate::text::lemma_bytes_lt_transitive(ka.3, kb.3, kc.3);
        }
    }
}

/// A resolved or unresolved reference from one object to another.
#[derive(Clone, Debug)]
pub struct ReferenceEdge {
    pub source_id: String,
    pub target_id: String,
    /// Index-local cache of the resolved target, one-based.
    pub target_ordinal: Option<u32>,
    pub expected: ReferenceExpectation,
    pub json_pointer: String,
}

/// The semantic order of edges: source, target, expectation, pointer. The resolved
/// target ordinal is an index-local cache and takes no part.
pub open spec fn edge_lt(a: ReferenceEdge, b: ReferenceEdge) -> bool {
    let (sa, sb) = (encode_utf8(a.source_id@), encode_utf8(b.source_id@));
    let (ta, tb) = (encode_utf8(a.target_id@), encode_utf8(b.target_id@));
    let (pa, pb) = (encode_utf8(a.json_pointer@), encode_utf8(b.json_pointer@));
    if bytes_lt(sa, sb) {
        true
    } else if bytes_lt(sb, sa) {
        false
    } else if bytes_lt(ta, tb) {
        true
    } else if bytes_lt(tb, ta) {
        false
    } else if expectation_lt(a.expected, b.expected) {
        true
    } else if expectation_lt(b.expected, a.expected) {
        false
    } else {
        bytes_lt(pa, pb)
    }
}

/// Semantic equality of edges, ignoring the resolved ordinal.
pub open spec fn edge_same(a: ReferenceEdge, b: ReferenceEdge) -> bool {
    a.source_id@ == b.source_id@ && a.target_id@ == b.target_id@ && expectation_same(
        a.expected,
        b.expected,
    ) && a.json_pointer@ == b.json_pointer@
}

pub open spec fn expectation_same(a: ReferenceExpectation, b: ReferenceExpectation) -> bool {
    match (a, b) {
        (ReferenceExpectation::NodeKind(x), ReferenceExpectation::NodeKind(y)) => x@ == y@,
        _ => expectation_ordinal(a) == expectation_ordinal(b),
    }
}

fn expectation_order(a: &ReferenceExpectation, b: &ReferenceExpectation) -> (r: i8)
    ensures
        r < 0 <==> expectation_lt(*a, *b),
        r > 0 <==> expectation_lt(*b, *a),
        r == 0 <==> expectation_same(*a, *b),
{
    let (x, y) = (a.ordinal(), b.ordinal());
    if x < y {
        return -1;
    }
    if x > y {
        return 1;
    }
    match (a, b) {
        (ReferenceExpectation::NodeKind(p), ReferenceExpectation::NodeKind(q)) => {
            proof {
                crate::text::lemma_utf8_injective(p@, q@);
            }
            compare_bytes(p.as_str().as_bytes(), q.as_str().as_bytes())
        },
        _ => 0,
    }
}

impl ReferenceEdge {
    /// Three-way semantic comparison: negative, zero (semantically equal) or positive.
    pub fn semantic_order(&self, other: &ReferenceEdge) -> (r: i8)
        ensures
            r < 0 <==> edge_lt(*self, *other),
            r > 0 <==> edge_lt(*other, *self),
            r == 0 <==> edge_same(*self, *other),
    {
        proof {
            crate::text::lemma_utf8_injective(self.source_id@, other.source_id@);
            crate::text::lemma_utf8_injective(self.target_id@, other.target_id@);
            crate::text::lemma_utf8_injective(self.json_pointer@, other.json_pointer@);
        }
        let s = compare_bytes(self.source_id.as_str().as_bytes(), other.source_id.as_str().as_bytes());
        if s != 0 {
            return s;
        }
        let t = compare_bytes(self.target_id.as_str().as_bytes(), other.target_id.as_str().as_bytes());
        if t != 0 {
            return t;
        }
        let e = expectation_order(&self.expected, &other.expected);
        if e != 0 {
            return e;
        }
        compare_bytes(self.json_pointer.as_str().as_bytes(), other.json_pointer.as_str().as_bytes())
    }
}


/// The schema an object must carry to meet an expectation.
pub open spec fn expected_schema(e: ReferenceExpectation) -> Seq<char> {
    match e {
        ReferenceExpectation::Project => "rp/project/v1"@,
        ReferenceExpectation::Node => "rp/node-revision/v1"@,
        ReferenceExpectation::NodeKind(_) => "rp/node-revision/v1"@,
        ReferenceExpectation::Relation => "rp/scientific-relation-revision/v1"@,
        ReferenceExpectation::Assessment => "rp/assessment/v1"@,
        ReferenceExpectation::Thread => "rp/research-thread/v1"@,
        ReferenceExpectation::ThreadBinding => "rp/thread-binding/v1"@,
        ReferenceExpectation::ClaimChain => "rp/claim-chain-snapshot/v1"@,
        ReferenceExpectation::Artifact => "rp/artifact-manifest/v1"@,
        ReferenceExpectation::ExternalReference => "rp/external-reference/v1"@,
        ReferenceExpectation::ResearchRun => "rp/research-run/v1"@,
    }
}

/// The schema identifier that an expected reference target must carry.
pub fn expected_type(expected: &ReferenceExpectation) -> (s: &'static str)
    ensures
        s@ == expected_schema(*expected),
{
    proof {
        reveal_strlit("rp/artifact-manifest/v1");
        reveal_strlit("rp/assessment/v1");
        reveal_strlit("rp/claim-chain-snapshot/v1");
        reveal_strlit("rp/external-reference/v1");
        reveal_strlit("rp/node-revision/v1");
        reveal_strlit("rp/project/v1");
        reveal_strlit("rp/research-run/v1");
        reveal_strlit("rp/research-thread/v1");
        reveal_strlit("rp/scientific-relation-revision/v1");
        reveal_strlit("rp/thread-binding/v1");
    }
    match expected {
        ReferenceExpectation::Project => "rp/project/v1",
        ReferenceExpectation::Node => "rp/node-revision/v1",
        ReferenceExpectation::NodeKind(_) => "rp/node-revision/v1",
        ReferenceExpectation::Relation => "rp/scientific-relation-revision/v1",
        ReferenceExpectation::Assessment => "rp/assessment/v1",
        ReferenceExpectation::Thread => "rp/research-thread/v1",
        ReferenceExpectation::ThreadBinding => "rp/thread-binding/v1",
        ReferenceExpectation::ClaimChain => "rp/claim-chain-snapshot/v1",
        ReferenceExpectation::Artifact => "rp/artifact-manifest/v1",
        ReferenceExpectation::ExternalReference => "rp/external-reference/v1",
        ReferenceExpectation::ResearchRun => "rp/research-run/v1",
    }
}

} // verus!
