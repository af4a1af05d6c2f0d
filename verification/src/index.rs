//! Canonical objects as read from a project, and the references they declare.
use vstd::prelude::*;

use crate::access::AccessStore;
use crate::execution::ExecutionBudget;
use crate::finding::ProjectPath;
use crate::json::{as_items, as_text, json_get, json_pointer};
use crate::model::{edge_lt, expectation_ordinal, lemma_edge_lt_order, ObjectType, ReferenceEdge, ReferenceExpectation};
use crate::report_json::JsonValue;
use crate::text::{bytes_lt, compare_bytes, lemma_bytes_lt_irreflexive, lemma_bytes_lt_transitive, lemma_utf8_injective, str_eq, string_push, string_push_str};
use vstd::string::StringSliceAdditionalSpecFns;
use vstd::utf8::encode_utf8;
use vstd::multiset::Multiset;

verus! {

broadcast use vstd::seq_lib::group_to_multiset_ensures;

/// The decimal digits of `n`.
pub open spec fn decimal(n: nat) -> Seq<char>
    decreases n,
{
    if n < 10 {
        seq![digit_char(n)]
    } else {
        decimal(n / 10).push(digit_char(n % 10))
    }
}

pub open spec fn digit_char(d: nat) -> char {
    ('0' as int + d) as char
}

/// Appends the decimal digits of `n`.
pub fn push_decimal(s: &mut String, n: usize)
    ensures
        final(s)@ == old(s)@ + decimal(n as nat),
    decreases n,
{
    if n >= 10 {
        push_decimal(s, n / 10);
    }
    let d = (n % 10) as u8;
    let ghost before = s@;
    string_push(s, (48u8 + d) as char);
    proof {
        assert(((48u8 + d) as char) == digit_char((n % 10) as nat));
        if n >= 10 {
            assert(s@ =~= old(s)@ + decimal(n as nat));
        } else {
            assert(s@ =~= old(s)@ + decimal(n as nat));
        }
    }
}

/// An expectation by its variant position and, for a node kind, the kind's name.
pub open spec fn expectation_view(e: ReferenceExpectation) -> (int, Seq<char>) {
    match e {
        ReferenceExpectation::NodeKind(k) => (expectation_ordinal(e), k@),
        _ => (expectation_ordinal(e), Seq::empty()),
    }
}

/// An edge by its source, target, expectation and pointer.
pub open spec fn edge_view(e: ReferenceEdge) -> (Seq<char>, Seq<char>, (int, Seq<char>), Seq<char>) {
    (e.source_id@, e.target_id@, expectation_view(e.expected), e.json_pointer@)
}

/// How a reference rule reads the value at its pointer.
#[derive(Clone, Copy, Debug, PartialEq, Eq, Structural)]
pub enum RuleKind {
    /// One identifier string.
    One,
    /// Every string item of an array, each at `pointer/index`.
    Each,
    /// The `id` string of every item of an array, each at `pointer/index/id`.
    Parents,
}

/// Where an object declares references of one expectation.
pub struct ReferenceRule {
    pub pointer: &'static str,
    pub kind: RuleKind,
    pub expected: ReferenceExpectation,
}

pub open spec fn rule_view(r: ReferenceRule) -> (Seq<char>, RuleKind, (int, Seq<char>)) {
    (r.pointer@, r.kind, expectation_view(r.expected))
}

/// A plain expectation (not a node kind) as viewed in rules.
pub open spec fn plain(ordinal: int) -> (int, Seq<char>) {
    (ordinal, Seq::empty())
}

/// A node kind expectation as viewed in rules.
pub open spec fn node_kind(k: Seq<char>) -> (int, Seq<char>) {
    (2, k)
}

/// The references every object may declare about its sources.
pub open spec fn source_rules() -> Seq<(Seq<char>, RuleKind, (int, Seq<char>))> {
    seq![
        ("/source/revisions"@, RuleKind::Each, plain(1)),
        ("/source/relations"@, RuleKind::Each, plain(3)),
        ("/source/artifacts"@, RuleKind::Each, plain(8)),
        ("/source/external_references"@, RuleKind::Each, plain(9)),
    ]
}

/// An assessment targets a relation revision where its target says so, else a node.
pub open spec fn assessment_target(value: JsonValue) -> (int, Seq<char>) {
    if as_text(json_pointer(value, "/target/type"@)) == Some("relation_revision"@) {
        plain(3)
    } else {
        plain(1)
    }
}

/// The references an object of kind `t` declares beside its sources, in order.
pub open spec fn kind_rules(t: ObjectType, value: JsonValue) -> Seq<(Seq<char>, RuleKind, (int, Seq<char>))> {
    match t {
        ObjectType::Node(_) => seq![
            ("/revision/parents"@, RuleKind::Parents, plain(1)),
            ("/scope/research_run_id"@, RuleKind::One, plain(10)),
            ("/scope/dataset_revisions"@, RuleKind::Each, node_kind("Dataset"@)),
            ("/observation/method/protocol_reference"@, RuleKind::One, plain(9)),
            ("/measurement/method/protocol_reference"@, RuleKind::One, plain(9)),
            ("/method/protocol_references"@, RuleKind::Each, plain(9)),
            ("/test/target_revision_ids"@, RuleKind::Each, plain(1)),
            ("/test/method_revision"@, RuleKind::One, node_kind("Method"@)),
            ("/next_action/dependencies"@, RuleKind::Each, plain(1)),
            ("/paper_claim/publication_reference"@, RuleKind::One, plain(9)),
        ],
        ObjectType::Relation => seq![
            ("/from_revision"@, RuleKind::One, plain(1)),
            ("/to_revision"@, RuleKind::One, plain(1)),
            ("/revision/parents"@, RuleKind::Parents, plain(3)),
        ],
        ObjectType::Assessment => seq![
            ("/target/id"@, RuleKind::One, assessment_target(value)),
            ("/supersedes_assessments"@, RuleKind::Each, plain(4)),
            ("/quantitative_assessment/source_measurements"@, RuleKind::Each, node_kind("Measurement"@)),
        ],
        ObjectType::Thread => seq![
            ("/root_question_revision"@, RuleKind::One, node_kind("Question"@)),
            ("/parent_thread_id"@, RuleKind::One, plain(5)),
            ("/forked_from_thread_id"@, RuleKind::One, plain(5)),
        ],
        ObjectType::ThreadBinding => seq![
            ("/thread_id"@, RuleKind::One, plain(5)),
            ("/target/id"@, RuleKind::One, plain(1)),
            ("/revision/parents"@, RuleKind::Parents, plain(6)),
        ],
        ObjectType::ClaimChain => seq![
            ("/thread_id"@, RuleKind::One, plain(5)),
            ("/root_node_revisions"@, RuleKind::Each, plain(1)),
            ("/target_node_revision"@, RuleKind::One, plain(1)),
            ("/node_revisions"@, RuleKind::Each, plain(1)),
            ("/relation_revisions"@, RuleKind::Each, plain(3)),
            ("/validation_report"@, RuleKind::One, plain(8)),
        ],
        ObjectType::ResearchRun => seq![
            ("/project_id"@, RuleKind::One, plain(0)),
            ("/parent_run_id"@, RuleKind::One, plain(10)),
            ("/planned_inputs/revisions"@, RuleKind::Each, plain(1)),
            ("/planned_inputs/artifacts"@, RuleKind::Each, plain(8)),
        ],
        _ => Seq::empty(),
    }
}

/// Every reference rule of an object, sources first.
pub open spec fn object_rules(t: ObjectType, value: JsonValue) -> Seq<(Seq<char>, RuleKind, (int, Seq<char>))> {
    source_rules() + kind_rules(t, value)
}

/// A reference read from an object: source, target, expectation and pointer.
pub open spec fn item_target(item: JsonValue, parents: bool) -> Option<Seq<char>> {
    if parents {
        as_text(json_get(item, "id"@))
    } else {
        as_text(Some(item))
    }
}

/// The pointer of the `i`-th item of an array read by a rule.
pub open spec fn item_pointer(pointer: Seq<char>, i: nat, parents: bool) -> Seq<char> {
    if parents {
        pointer + "/"@ + decimal(i) + "/id"@
    } else {
        pointer + "/"@ + decimal(i)
    }
}

/// The references declared by the first `n` items of an array.
pub open spec fn item_edges(
    source: Seq<char>,
    items: Seq<JsonValue>,
    pointer: Seq<char>,
    exp: (int, Seq<char>),
    parents: bool,
    n: int,
) -> Seq<(Seq<char>, Seq<char>, (int, Seq<char>), Seq<char>)>
    decreases n,
{
    if n <= 0 {
        Seq::empty()
    } else {
        let prev = item_edges(source, items, pointer, exp, parents, n - 1);
        match item_target(items[n - 1], parents) {
            Some(t) => prev.push((source, t, exp, item_pointer(pointer, (n - 1) as nat, parents))),
            None => prev,
        }
    }
}

/// The references one rule reads out of an object's value.
pub open spec fn rule_edges(
    source: Seq<char>,
    value: JsonValue,
    rule: (Seq<char>, RuleKind, (int, Seq<char>)),
) -> Seq<(Seq<char>, Seq<char>, (int, Seq<char>), Seq<char>)> {
    let (pointer, kind, exp) = rule;
    let at = json_pointer(value, pointer);
    match kind {
        RuleKind::One => match as_text(at) {
            Some(t) => seq![(source, t, exp, pointer)],
            None => Seq::empty(),
        },
        RuleKind::Each => match as_items(at) {
            Some(items) => item_edges(source, items, pointer, exp, false, items.len() as int),
            None => Seq::empty(),
        },
        RuleKind::Parents => match as_items(at) {
            Some(items) => item_edges(source, items, pointer, exp, true, items.len() as int),
            None => Seq::empty(),
        },
    }
}

/// The references read by a list of rules, rule by rule.
pub open spec fn rules_edges(
    source: Seq<char>,
    value: JsonValue,
    rules: Seq<(Seq<char>, RuleKind, (int, Seq<char>))>,
) -> Seq<(Seq<char>, Seq<char>, (int, Seq<char>), Seq<char>)>
    decreases rules.len(),
{
    if rules.len() == 0 {
        Seq::empty()
    } else {
        rules_edges(source, value, rules.drop_last()) + rule_edges(source, value, rules.last())
    }
}

/// Every edge a rule reads starts at the reading object.
pub proof fn lemma_rules_edges_source(
    source: Seq<char>,
    value: JsonValue,
    rules: Seq<(Seq<char>, RuleKind, (int, Seq<char>))>,
)
    ensures
        forall|x: (Seq<char>, Seq<char>, (int, Seq<char>), Seq<char>)| rules_edges(source, value, rules).contains(x) ==> x.0 == source,
    decreases rules.len(),
{
    if rules.len() > 0 {
        lemma_rules_edges_source(source, value, rules.drop_last());
        let r = rules.last();
        let at = json_pointer(value, r.0);
        match as_items(at) {
            Some(items) => {
                lemma_item_edges_source(source, items, r.0, r.2, false, items.len() as int);
                lemma_item_edges_source(source, items, r.0, r.2, true, items.len() as int);
            },
            None => {},
        }
        let whole = rules_edges(source, value, rules);
        let prev = rules_edges(source, value, rules.drop_last());
        let last = rule_edges(source, value, r);
        assert forall|x: (Seq<char>, Seq<char>, (int, Seq<char>), Seq<char>)| whole.contains(x) implies x.0 == source by {
            let i = choose|i: int| 0 <= i < whole.len() && whole[i] == x;
            if i < prev.len() {
                assert(prev[i] == x);
                assert(prev.contains(x));
            } else {
                assert(last[i - prev.len()] == x);
                assert(last.contains(x));
            }
        }
    }
}

proof fn lemma_item_edges_source(
    source: Seq<char>,
    items: Seq<JsonValue>,
    pointer: Seq<char>,
    exp: (int, Seq<char>),
    parents: bool,
    n: int,
)
    ensures
        forall|x: (Seq<char>, Seq<char>, (int, Seq<char>), Seq<char>)| item_edges(source, items, pointer, exp, parents, n).contains(x) ==> x.0 == source,
    decreases n,
{
    if n > 0 {
        lemma_item_edges_source(source, items, pointer, exp, parents, n - 1);
        let whole = item_edges(source, items, pointer, exp, parents, n);
        let prev = item_edges(source, items, pointer, exp, parents, n - 1);
        assert forall|x: (Seq<char>, Seq<char>, (int, Seq<char>), Seq<char>)| whole.contains(x) implies x.0 == source by {
            let i = choose|i: int| 0 <= i < whole.len() && whole[i] == x;
            if i < prev.len() {
                assert(prev[i] == x);
                assert(prev.contains(x));
            }
        }
    }
}

/// One canonical object of a project.
pub struct ObjectRecord {
    pub ordinal: usize,
    pub id: String,
    pub logical_id: Option<String>,
    pub object_type: ObjectType,
    pub source_file: ProjectPath,
    pub value: JsonValue,
}

/// The references an object declares, in the order they are read.
pub open spec fn declared_references(o: ObjectRecord) -> Seq<(Seq<char>, Seq<char>, (int, Seq<char>), Seq<char>)> {
    rules_edges(o.id@, o.value, object_rules(o.object_type, o.value))
}

/// A copy of an expectation.
pub fn copy_expectation(e: &ReferenceExpectation) -> (r: ReferenceExpectation)
    ensures
        r == *e,
{
    match e {
        ReferenceExpectation::Project => ReferenceExpectation::Project,
        ReferenceExpectation::Node => ReferenceExpectation::Node,
        ReferenceExpectation::NodeKind(k) => ReferenceExpectation::NodeKind(k.clone()),
        ReferenceExpectation::Relation => ReferenceExpectation::Relation,
        ReferenceExpectation::Assessment => ReferenceExpectation::Assessment,
        ReferenceExpectation::Thread => ReferenceExpectation::Thread,
        ReferenceExpectation::ThreadBinding => ReferenceExpectation::ThreadBinding,
        ReferenceExpectation::ClaimChain => ReferenceExpectation::ClaimChain,
        ReferenceExpectation::Artifact => ReferenceExpectation::Artifact,
        ReferenceExpectation::ExternalReference => ReferenceExpectation::ExternalReference,
        ReferenceExpectation::ResearchRun => ReferenceExpectation::ResearchRun,
    }
}

fn rule(pointer: &'static str, kind: RuleKind, expected: ReferenceExpectation) -> (r: ReferenceRule)
    ensures
        r.pointer == pointer,
        r.kind == kind,
        r.expected == expected,
{
    ReferenceRule { pointer, kind, expected }
}

fn kind_named(name: &'static str) -> (e: ReferenceExpectation)
    ensures
        expectation_view(e) == node_kind(name@),
{
    ReferenceExpectation::NodeKind(name.to_owned())
}

/// The reference rules of an object, sources first.
pub fn reference_rules(t: &ObjectType, value: &JsonValue) -> (r: Vec<ReferenceRule>)
    ensures
        r@.map_values(|x: ReferenceRule| rule_view(x)) == object_rules(*t, *value),
{
    let mut r = vec![
        rule("/source/revisions", RuleKind::Each, ReferenceExpectation::Node),
        rule("/source/relations", RuleKind::Each, ReferenceExpectation::Relation),
        rule("/source/artifacts", RuleKind::Each, ReferenceExpectation::Artifact),
        rule("/source/external_references", RuleKind::Each, ReferenceExpectation::ExternalReference),
    ];
    let mut k = match t {
        ObjectType::Node(_) => vec![
            rule("/revision/parents", RuleKind::Parents, ReferenceExpectation::Node),
            rule("/scope/research_run_id", RuleKind::One, ReferenceExpectation::ResearchRun),
            rule("/scope/dataset_revisions", RuleKind::Each, kind_named("Dataset")),
            rule("/observation/method/protocol_reference", RuleKind::One, ReferenceExpectation::ExternalReference),
            rule("/measurement/method/protocol_reference", RuleKind::One, ReferenceExpectation::ExternalReference),
            rule("/method/protocol_references", RuleKind::Each, ReferenceExpectation::ExternalReference),
            rule("/test/target_revision_ids", RuleKind::Each, ReferenceExpectation::Node),
            rule("/test/method_revision", RuleKind::One, kind_named("Method")),
            rule("/next_action/dependencies", RuleKind::Each, ReferenceExpectation::Node),
            rule("/paper_claim/publication_reference", RuleKind::One, ReferenceExpectation::ExternalReference),
        ],
        ObjectType::Relation => vec![
            rule("/from_revision", RuleKind::One, ReferenceExpectation::Node),
            rule("/to_revision", RuleKind::One, ReferenceExpectation::Node),
            rule("/revision/parents", RuleKind::Parents, ReferenceExpectation::Relation),
        ],
        ObjectType::Assessment => {
            let target = match value.at_pointer("/target/type") {
                Some(v) => match v.as_str() {
                    Some(t) => str_eq(t, "relation_revision"),
                    None => false,
                },
                None => false,
            };
            let expected = if target {
                ReferenceExpectation::Relation
            } else {
                ReferenceExpectation::Node
            };
            vec![
                rule("/target/id", RuleKind::One, expected),
                rule("/supersedes_assessments", RuleKind::Each, ReferenceExpectation::Assessment),
                rule("/quantitative_assessment/source_measurements", RuleKind::Each, kind_named("Measurement")),
            ]
        },
        ObjectType::Thread => vec![
            rule("/root_question_revision", RuleKind::One, kind_named("Question")),
            rule("/parent_thread_id", RuleKind::One, ReferenceExpectation::Thread),
            rule("/forked_from_thread_id", RuleKind::One, ReferenceExpectation::Thread),
        ],
        ObjectType::ThreadBinding => vec![
            rule("/thread_id", RuleKind::One, ReferenceExpectation::Thread),
            rule("/target/id", RuleKind::One, ReferenceExpectation::Node),
            rule("/revision/parents", RuleKind::Parents, ReferenceExpectation::ThreadBinding),
        ],
        ObjectType::ClaimChain => vec![
            rule("/thread_id", RuleKind::One, ReferenceExpectation::Thread),
            rule("/root_node_revisions", RuleKind::Each, ReferenceExpectation::Node),
            rule("/target_node_revision", RuleKind::One, ReferenceExpectation::Node),
            rule("/node_revisions", RuleKind::Each, ReferenceExpectation::Node),
            rule("/relation_revisions", RuleKind::Each, ReferenceExpectation::Relation),
            rule("/validation_report", RuleKind::One, ReferenceExpectation::Artifact),
        ],
        ObjectType::ResearchRun => vec![
            rule("/project_id", RuleKind::One, ReferenceExpectation::Project),
            rule("/parent_run_id", RuleKind::One, ReferenceExpectation::ResearchRun),
            rule("/planned_inputs/revisions", RuleKind::Each, ReferenceExpectation::Node),
            rule("/planned_inputs/artifacts", RuleKind::Each, ReferenceExpectation::Artifact),
        ],
        _ => Vec::new(),
    };
    let ghost first = r@;
    let ghost second = k@;
    r.append(&mut k);
    proof {
        assert(first.map_values(|x: ReferenceRule| rule_view(x)) =~= source_rules());
        assert(second.map_values(|x: ReferenceRule| rule_view(x)) =~= kind_rules(*t, *value));
        assert(r@.map_values(|x: ReferenceRule| rule_view(x)) =~= first.map_values(|x: ReferenceRule| rule_view(x)) + second.map_values(|x: ReferenceRule| rule_view(x)));
    }
    r
}

/// An unresolved edge from `object`.
fn edge(object: &ObjectRecord, target: &str, expected: ReferenceExpectation, pointer: String) -> (e: ReferenceEdge)
    ensures
        edge_view(e) == (object.id@, target@, expectation_view(expected), pointer@),
        e.target_ordinal is None,
{
    ReferenceEdge {
        source_id: object.id.clone(),
        target_id: target.to_owned(),
        target_ordinal: None,
        expected,
        json_pointer: pointer,
    }
}

/// The target named by one array item: the item itself, or its `id` member.
pub fn item_target_of(item: &JsonValue, parents: bool) -> (r: Option<&str>)
    ensures
        match r {
            Some(t) => item_target(*item, parents) == Some(t@),
            None => item_target(*item, parents) is None,
        },
{
    if parents {
        match item.get("id") {
            Some(v) => v.as_str(),
            None => None,
        }
    } else {
        item.as_str()
    }
}

/// The references one rule reads out of an object, unresolved.
pub fn rule_references(object: &ObjectRecord, rule: &ReferenceRule) -> (r: Vec<ReferenceEdge>)
    ensures
        r@.map_values(|e: ReferenceEdge| edge_view(e)) == rule_edges(object.id@, object.value, rule_view(*rule)),
        forall|k: int| 0 <= k < r@.len() ==> (#[trigger] r@[k]).target_ordinal is None,
{
    let mut out: Vec<ReferenceEdge> = Vec::new();
    let at = object.value.at_pointer(rule.pointer);
    match rule.kind {
        RuleKind::One => {
            let target = match at {
                Some(v) => v.as_str(),
                None => None,
            };
            if let Some(t) = target {
                out.push(edge(object, t, copy_expectation(&rule.expected), rule.pointer.to_owned()));
                proof {
                    assert(out@.map_values(|e: ReferenceEdge| edge_view(e)) =~= rule_edges(object.id@, object.value, rule_view(*rule)));
                }
            } else {
                proof {
                    assert(out@.map_values(|e: ReferenceEdge| edge_view(e)) =~= rule_edges(object.id@, object.value, rule_view(*rule)));
                }
            }
            out
        },
        RuleKind::Each | RuleKind::Parents => {
            let parents = rule.kind == RuleKind::Parents;
            let items = match at {
                Some(v) => match v.as_array() {
                    Some(items) => items,
                    None => {
                        proof {
                            assert(out@.map_values(|e: ReferenceEdge| edge_view(e)) =~= rule_edges(object.id@, object.value, rule_view(*rule)));
                        }
                        return out;
                    },
                },
                None => {
                    proof {
                        assert(out@.map_values(|e: ReferenceEdge| edge_view(e)) =~= rule_edges(object.id@, object.value, rule_view(*rule)));
                    }
                    return out;
                },
            };
            let ghost exp = expectation_view(rule.expected);
            let mut i: usize = 0;
            proof {
                assert(out@.map_values(|e: ReferenceEdge| edge_view(e)) =~= item_edges(object.id@, items@, rule.pointer@, exp, parents, 0));
            }
            while i < items.len()
                invariant
                    i <= items@.len(),
                    exp == expectation_view(rule.expected),
                    out@.map_values(|e: ReferenceEdge| edge_view(e)) == item_edges(object.id@, items@, rule.pointer@, exp, parents, i as int),
                    forall|k: int| 0 <= k < out@.len() ==> (#[trigger] out@[k]).target_ordinal is None,
                decreases items@.len() - i,
            {
                let ghost before = out@;
                match item_target_of(&items[i], parents) {
                    Some(t) => {
                        let mut p = String::new();
                        string_push_str(&mut p, rule.pointer);
                        string_push_str(&mut p, "/");
                        push_decimal(&mut p, i);
                        if parents {
                            string_push_str(&mut p, "/id");
                        }
                        out.push(edge(object, t, copy_expectation(&rule.expected), p));
                        proof {
                            assert(out@.drop_last() =~= before);
                            assert(out@.map_values(|e: ReferenceEdge| edge_view(e)) =~= before.map_values(|e: ReferenceEdge| edge_view(e)).push(edge_view(out@.last())));
                        }
                    },
                    None => {},
                }
                i = i + 1;
            }
            out
        },
    }
}

/// The references an object declares, unresolved, in the order they are read.
pub fn object_references(object: &ObjectRecord) -> (r: Vec<ReferenceEdge>)
    ensures
        r@.map_values(|e: ReferenceEdge| edge_view(e)) == declared_references(*object),
        forall|k: int| 0 <= k < r@.len() ==> (#[trigger] r@[k]).target_ordinal is None,
{
    let rules = reference_rules(&object.object_type, &object.value);
    let ghost rv = rules@.map_values(|x: ReferenceRule| rule_view(x));
    let mut out: Vec<ReferenceEdge> = Vec::new();
    let mut i: usize = 0;
    proof {
        assert(rv.subrange(0, 0) =~= Seq::<(Seq<char>, RuleKind, (int, Seq<char>))>::empty());
        assert(out@.map_values(|e: ReferenceEdge| edge_view(e)) =~= Seq::<(Seq<char>, Seq<char>, (int, Seq<char>), Seq<char>)>::empty());
    }
    while i < rules.len()
        invariant
            i <= rules@.len(),
            rv == rules@.map_values(|x: ReferenceRule| rule_view(x)),
            rv == object_rules(object.object_type, object.value),
            out@.map_values(|e: ReferenceEdge| edge_view(e)) == rules_edges(object.id@, object.value, rv.subrange(0, i as int)),
            forall|k: int| 0 <= k < out@.len() ==> (#[trigger] out@[k]).target_ordinal is None,
        decreases rules@.len() - i,
    {
        let ghost before = out@;
        let mut more = rule_references(object, &rules[i]);
        let ghost added = more@;
        out.append(&mut more);
        proof {
            let t = rv.subrange(0, i + 1);
            assert(t.drop_last() =~= rv.subrange(0, i as int));
            assert(t.last() == rule_view(rules@[i as int]));
            assert(out@ =~= before + added);
            assert(out@.map_values(|e: ReferenceEdge| edge_view(e)) =~= before.map_values(|e: ReferenceEdge| edge_view(e)) + added.map_values(|e: ReferenceEdge| edge_view(e)));
            assert forall|k: int| 0 <= k < out@.len() implies (#[trigger] out@[k]).target_ordinal is None by {
                if k >= before.len() {
                    assert(out@[k] == added[k - before.len()]);
                }
            }
        }
        i = i + 1;
    }
    proof {
        assert(rv.subrange(0, i as int) =~= rv);
    }
    out
}

/// Appends the references an object declares to `references`, unresolved.
pub fn collect_references(object: &ObjectRecord, references: &mut Vec<ReferenceEdge>)
    ensures
        final(references)@.len() >= old(references)@.len(),
        final(references)@.take(old(references)@.len() as int) == old(references)@,
        final(references)@.skip(old(references)@.len() as int).map_values(|e: ReferenceEdge| edge_view(e))
            == declared_references(*object),
        forall|k: int| old(references)@.len() <= k < final(references)@.len() ==> (#[trigger] final(references)@[k]).target_ordinal is None,
{
    let mut more = object_references(object);
    let ghost added = more@;
    references.append(&mut more);
    proof {
        assert(final(references)@.take(old(references)@.len() as int) =~= old(references)@) by {
            assert(references@ =~= old(references)@ + added);
        }
        assert(references@.skip(old(references)@.len() as int) =~= added);
        assert forall|k: int| old(references)@.len() <= k < references@.len() implies (#[trigger] references@[k]).target_ordinal is None by {
            assert(references@[k] == added[k - old(references)@.len()]);
        }
    }
}

/// No edge is ordered before an earlier one.
pub open spec fn edges_sorted(s: Seq<ReferenceEdge>) -> bool {
    forall|i: int, j: int| 0 <= i < j < s.len() ==> !edge_lt(#[trigger] s[j], #[trigger] s[i])
}

/// A copy of an edge.
pub fn copy_edge(e: &ReferenceEdge) -> (r: ReferenceEdge)
    ensures
        r == *e,
{
    ReferenceEdge {
        source_id: e.source_id.clone(),
        target_id: e.target_id.clone(),
        target_ordinal: e.target_ordinal,
        expected: copy_expectation(&e.expected),
        json_pointer: e.json_pointer.clone(),
    }
}

fn insert_edge(sorted: &mut Vec<ReferenceEdge>, x: ReferenceEdge)
    requires
        edges_sorted(old(sorted)@),
    ensures
        edges_sorted(final(sorted)@),
        final(sorted)@.to_multiset() == old(sorted)@.to_multiset().insert(x),
{
    let ghost keys = sorted@;
    let mut p: usize = 0;
    while p < sorted.len() && x.semantic_order(&sorted[p]) >= 0
        invariant
            p <= sorted@.len(),
            keys == sorted@,
            forall|k: int| 0 <= k < p ==> !edge_lt(x, #[trigger] keys[k]),
        decreases sorted.len() - p,
    {
        p = p + 1;
    }
    proof {
        vstd::seq_lib::to_multiset_insert(sorted@, p as int, x);
    }
    sorted.insert(p, x);
    let ghost nk = sorted@;
    assert(nk =~= keys.insert(p as int, x));
    assert forall|i: int, j: int| 0 <= i < j < nk.len() implies !edge_lt(#[trigger] nk[j], #[trigger] nk[i]) by {
        lemma_edge_lt_order(x, x, x);
        if i < p && j == p {
        } else if i == p && j > p {
            if edge_lt(nk[j], x) {
                assert(nk[j] == keys[j - 1]);
                assert(edge_lt(x, keys[p as int]));
                if j - 1 > p {
                    assert(!edge_lt(keys[j - 1], keys[p as int]));
                }
                lemma_edge_lt_order(keys[j - 1], x, keys[p as int]);
                lemma_edge_lt_order(keys[p as int], keys[p as int], keys[p as int]);
            }
        } else if i < p && j < p {
        } else if i < p && j > p {
            assert(nk[j] == keys[j - 1]);
        } else {
            assert(nk[j] == keys[j - 1]);
            assert(nk[i] == keys[i - 1]);
        }
    }
}

/// The edges in their semantic order.
pub fn sort_edges(edges: Vec<ReferenceEdge>) -> (r: Vec<ReferenceEdge>)
    ensures
        edges_sorted(r@),
        r@.to_multiset() == edges@.to_multiset(),
{
    let ghost original = edges@;
    let mut rest = edges;
    let mut sorted: Vec<ReferenceEdge> = Vec::new();
    while rest.len() > 0
        invariant
            edges_sorted(sorted@),
            sorted@.to_multiset().add(rest@.to_multiset()) == original.to_multiset(),
        decreases rest.len(),
    {
        let ghost before = rest@;
        let x = rest.pop().unwrap();
        proof {
            assert(before =~= rest@.push(x));
        }
        insert_edge(&mut sorted, x);
        proof {
            assert(sorted@.to_multiset().add(rest@.to_multiset()) =~= original.to_multiset());
        }
    }
    proof {
        assert(rest@.to_multiset() =~= Multiset::empty());
        assert(sorted@.to_multiset() =~= original.to_multiset());
    }
    sorted
}

/// The edges among `refs` whose source is `src`, in order.
pub open spec fn edges_from(refs: Seq<ReferenceEdge>, src: Seq<char>) -> Seq<ReferenceEdge>
    decreases refs.len(),
{
    if refs.len() == 0 {
        Seq::empty()
    } else if refs.last().source_id@ == src {
        edges_from(refs.drop_last(), src).push(refs.last())
    } else {
        edges_from(refs.drop_last(), src)
    }
}

/// Ids in ascending order of their UTF-8 bytes, none twice.
pub open spec fn ids_ascending(s: Seq<ObjectRecord>) -> bool {
    forall|i: int, j: int| 0 <= i < j < s.len() ==> bytes_lt(encode_utf8(#[trigger] s[i].id@), encode_utf8(#[trigger] s[j].id@))
}

/// The position of the object with id `id`.
pub open spec fn position_of(s: Seq<ObjectRecord>, id: Seq<char>) -> Option<int>
    decreases s.len(),
{
    if s.len() == 0 {
        None
    } else if s.last().id@ == id {
        Some(s.len() - 1)
    } else {
        position_of(s.drop_last(), id)
    }
}

/// The object with id `id`.
pub open spec fn object_with(s: Seq<ObjectRecord>, id: Seq<char>) -> Option<ObjectRecord> {
    match position_of(s, id) {
        Some(p) => Some(s[p]),
        None => None,
    }
}

pub proof fn lemma_position_of(s: Seq<ObjectRecord>, id: Seq<char>)
    ensures
        position_of(s, id) matches Some(p) ==> 0 <= p < s.len() && s[p].id@ == id,
        position_of(s, id) is None ==> forall|i: int| 0 <= i < s.len() ==> (#[trigger] s[i]).id@ != id,
        ids_ascending(s) ==> forall|i: int| 0 <= i < s.len() && (#[trigger] s[i]).id@ == id ==> position_of(s, id) == Some(i),
    decreases s.len(),
{
    if s.len() > 0 {
        let d = s.drop_last();
        lemma_position_of(d, id);
        if position_of(s, id) is None {
            assert forall|i: int| 0 <= i < s.len() implies (#[trigger] s[i]).id@ != id by {
                if i < s.len() - 1 {
                    assert(d[i] == s[i]);
                }
            }
        }
        if ids_ascending(s) {
            assert(ids_ascending(d)) by {
                assert forall|a: int, b: int| 0 <= a < b < d.len() implies bytes_lt(encode_utf8(#[trigger] d[a].id@), encode_utf8(#[trigger] d[b].id@)) by {
                    assert(d[a] == s[a] && d[b] == s[b]);
                }
            }
            assert forall|i: int| 0 <= i < s.len() && (#[trigger] s[i]).id@ == id implies position_of(s, id) == Some(i) by {
                if i < s.len() - 1 {
                    assert(d[i] == s[i]);
                    if s.last().id@ == id {
                        assert(bytes_lt(encode_utf8(s[i].id@), encode_utf8(s[s.len() - 1].id@)));
                        lemma_bytes_lt_irreflexive(encode_utf8(id));
                    }
                }
            }
        }
    }
}

/// The edge with its target resolved in `s`: the target's one-based position.
pub open spec fn resolve_in(s: Seq<ObjectRecord>, e: ReferenceEdge) -> ReferenceEdge {
    ReferenceEdge {
        target_ordinal: match position_of(s, e.target_id@) {
            Some(p) => Some((p + 1) as u32),
            None => None,
        },
        ..e
    }
}

/// The edges among `refs` from `src`, resolved in `s`, in order.
pub open spec fn resolved_from(s: Seq<ObjectRecord>, refs: Seq<ReferenceEdge>, src: Seq<char>) -> Seq<ReferenceEdge> {
    edges_from(refs, src).map_values(|e: ReferenceEdge| resolve_in(s, e))
}

/// Whether the object kind keeps a revision lineage.
pub open spec fn has_lineage(t: ObjectType) -> bool {
    t is Node || t is Relation || t is ThreadBinding
}

/// The object, a member of some lineage, names `id` as one of its revision parents.
pub open spec fn lists_parent(o: ObjectRecord, id: Seq<char>) -> bool {
    &&& o.logical_id is Some
    &&& has_lineage(o.object_type)
    &&& match as_items(json_pointer(o.value, "/revision/parents"@)) {
        Some(items) => exists|i: int| 0 <= i < items.len() && item_target(#[trigger] items[i], true) == Some(id),
        None => false,
    }
}

/// Some object of `s` names `id` as a revision parent.
pub open spec fn is_parent(s: Seq<ObjectRecord>, id: Seq<char>) -> bool {
    exists|k: int| 0 <= k < s.len() && lists_parent(#[trigger] s[k], id)
}

/// The ids of the lineage `logical` that no object names as a parent, ascending.
pub open spec fn heads_of(s: Seq<ObjectRecord>, logical: Seq<char>, n: int) -> Seq<Seq<char>>
    decreases n,
{
    if n <= 0 {
        Seq::empty()
    } else {
        let prev = heads_of(s, logical, n - 1);
        let o = s[n - 1];
        if o.logical_id matches Some(l) && l@ == logical && !is_parent(s, o.id@) {
            prev.push(o.id@)
        } else {
            prev
        }
    }
}

/// The objects of a project, by id, with the references they declare.
pub struct ProjectIndex {
    execution: ExecutionBudget,
    objects: Vec<ObjectRecord>,
    references: Vec<Vec<ReferenceEdge>>,
    parent_marks: Vec<bool>,
    access: AccessStore,
    freshness_policy: Option<JsonValue>,
    verified_artifacts: Vec<String>,
}

impl ProjectIndex {
    /// The objects, in ascending id order.
    pub closed spec fn entries(&self) -> Seq<ObjectRecord> {
        self.objects@
    }

    /// The access reports filed with the index.
    pub closed spec fn access(&self) -> AccessStore {
        self.access
    }

    /// The access reports filed with the index.
    pub fn access_store(&self) -> (r: &AccessStore)
        ensures
            *r == self.access(),
    {
        &self.access
    }

    /// Files the access reports of the index's objects; nothing else changes.
    pub fn set_access(&mut self, store: AccessStore)
        ensures
            final(self).access() == store,
            final(self).freshness_policy() == old(self).freshness_policy(),
            final(self).verified() == old(self).verified(),
            final(self).entries() == old(self).entries(),
            final(self).reference_lists() == old(self).reference_lists(),
            final(self).heads_ready() == old(self).heads_ready(),
            final(self).wf() == old(self).wf(),
    {
        self.access = store;
    }

    /// The freshness policy the project declares, where it declares one.
    pub closed spec fn freshness_policy(&self) -> Option<JsonValue> {
        self.freshness_policy
    }

    /// The ids of the artifacts whose content was verified.
    pub closed spec fn verified(&self) -> Set<Seq<char>> {
        crate::access::names(self.verified_artifacts@)
    }

    /// The freshness policy the project declares, where it declares one.
    pub fn policy(&self) -> (r: Option<&JsonValue>)
        ensures
            match r {
                Some(p) => self.freshness_policy() == Some(*p),
                None => self.freshness_policy() is None,
            },
    {
        match &self.freshness_policy {
            Some(p) => Some(p),
            None => None,
        }
    }

    /// Files the project's freshness policy; nothing else changes.
    pub fn set_freshness_policy(&mut self, policy: Option<JsonValue>)
        ensures
            final(self).freshness_policy() == policy,
            final(self).verified() == old(self).verified(),
            final(self).access() == old(self).access(),
            final(self).entries() == old(self).entries(),
            final(self).reference_lists() == old(self).reference_lists(),
            final(self).heads_ready() == old(self).heads_ready(),
            final(self).wf() == old(self).wf(),
    {
        self.freshness_policy = policy;
    }

    /// Files the ids of the artifacts whose content was verified; nothing else changes.
    pub fn set_verified_artifacts(&mut self, ids: Vec<String>)
        ensures
            final(self).verified() == crate::access::names(ids@),
            final(self).freshness_policy() == old(self).freshness_policy(),
            final(self).access() == old(self).access(),
            final(self).entries() == old(self).entries(),
            final(self).reference_lists() == old(self).reference_lists(),
            final(self).heads_ready() == old(self).heads_ready(),
            final(self).wf() == old(self).wf(),
    {
        self.verified_artifacts = ids;
    }

    /// Whether the content of artifact `id` was verified.
    pub fn artifact_verified(&self, id: &str) -> (r: bool)
        ensures
            r == self.verified().contains(id@),
    {
        crate::access::contains_name(&self.verified_artifacts, id)
    }

    /// The ids of the objects, ascending.
    pub fn ids(&self) -> (r: Vec<&str>)
        ensures
            r@.map_values(|x: &str| x@) == self.entries().map_values(|o: ObjectRecord| o.id@),
    {
        let mut out: Vec<&str> = Vec::new();
        let mut k: usize = 0;
        while k < self.objects.len()
            invariant
                k <= self.objects@.len(),
                out@.map_values(|x: &str| x@) == self.objects@.subrange(0, k as int).map_values(|o: ObjectRecord| o.id@),
            decreases self.objects@.len() - k,
        {
            let ghost before = out@;
            out.push(self.objects[k].id.as_str());
            proof {
                assert(out@.map_values(|x: &str| x@) =~= before.map_values(|x: &str| x@).push(self.objects@[k as int].id@));
                assert(self.objects@.subrange(0, k + 1).map_values(|o: ObjectRecord| o.id@)
                    =~= self.objects@.subrange(0, k as int).map_values(|o: ObjectRecord| o.id@).push(self.objects@[k as int].id@));
            }
            k = k + 1;
        }
        proof {
            assert(self.objects@.subrange(0, k as int) =~= self.objects@);
        }
        out
    }

    /// No id occurs twice and ids ascend.
    pub closed spec fn wf(&self) -> bool {
        ids_ascending(self.objects@)
    }

    /// An index without objects, under a default command budget.
    pub fn new() -> (r: Self)
        ensures
            r.wf(),
            r.entries() == Seq::<ObjectRecord>::empty(),
            r.access().wf(),
            r.reference_lists() == Seq::<Seq<ReferenceEdge>>::empty(),
            r.heads_ready(),
            r.freshness_policy() is None,
            r.verified() == Set::<Seq<char>>::empty(),
            r.access().reports@.len() == 0,
            r.budget().limit() == 60_000_000_000u128,
    {
        ProjectIndex::with_execution(ExecutionBudget::default())
    }

    /// An index without objects, observing the command budget `execution`.
    pub fn with_execution(execution: ExecutionBudget) -> (r: Self)
        ensures
            r.wf(),
            r.entries() == Seq::<ObjectRecord>::empty(),
            r.access().wf(),
            r.budget() == execution,
            r.reference_lists() == Seq::<Seq<ReferenceEdge>>::empty(),
            r.heads_ready(),
            r.freshness_policy() is None,
            r.verified() == Set::<Seq<char>>::empty(),
            r.access().reports@.len() == 0,
    {
        ProjectIndex {
            execution,
            objects: Vec::new(),
            references: Vec::new(),
            parent_marks: Vec::new(),
            access: AccessStore { compartment_names: Vec::new(), reports: Vec::new() },
            freshness_policy: None,
            verified_artifacts: Vec::new(),
        }
    }

    /// The command budget this index's traversals observe.
    pub closed spec fn budget(&self) -> ExecutionBudget {
        self.execution
    }

    /// The command budget this index's traversals observe.
    pub fn execution_budget(&self) -> (r: &ExecutionBudget)
        ensures
            *r == self.budget(),
    {
        &self.execution
    }

    pub fn len(&self) -> (n: usize)
        ensures
            n == self.entries().len(),
    {
        self.objects.len()
    }

    pub fn is_empty(&self) -> (r: bool)
        ensures
            r == (self.entries().len() == 0),
    {
        self.objects.len() == 0
    }

    /// The objects, in ascending id order.
    pub fn objects(&self) -> (s: &[ObjectRecord])
        ensures
            s@ == self.entries(),
    {
        self.objects.as_slice()
    }

    /// Where `id` is, or where it would go.
    fn locate(&self, id: &str) -> (r: Result<usize, usize>)
        requires
            self.wf(),
        ensures
            match r {
                Ok(i) => i < self.entries().len() && self.entries()[i as int].id@ == id@,
                Err(i) => i <= self.entries().len()
                    && (forall|k: int| 0 <= k < i ==> bytes_lt(encode_utf8(#[trigger] self.entries()[k].id@), encode_utf8(id@)))
                    && (forall|k: int| i <= k < self.entries().len() ==> bytes_lt(encode_utf8(id@), encode_utf8(#[trigger] self.entries()[k].id@))),
            },
    {
        let mut lo: usize = 0;
        let mut hi: usize = self.objects.len();
        while lo < hi
            invariant
                lo <= hi <= self.objects@.len(),
                ids_ascending(self.objects@),
                forall|k: int| 0 <= k < lo ==> bytes_lt(encode_utf8(#[trigger] self.objects@[k].id@), encode_utf8(id@)),
                forall|k: int| hi <= k < self.objects@.len() ==> bytes_lt(encode_utf8(id@), encode_utf8(#[trigger] self.objects@[k].id@)),
            decreases hi - lo,
        {
            let mid = lo + (hi - lo) / 2;
            let c = compare_bytes(self.objects[mid].id.as_str().as_bytes(), id.as_bytes());
            if c == 0 {
                proof {
                    lemma_utf8_injective(self.objects@[mid as int].id@, id@);
                }
                return Ok(mid);
            } else if c < 0 {
                proof {
                    assert forall|k: int| 0 <= k < mid + 1 implies bytes_lt(encode_utf8(#[trigger] self.objects@[k].id@), encode_utf8(id@)) by {
                        if k < mid {
                            lemma_bytes_lt_transitive(encode_utf8(self.objects@[k].id@), encode_utf8(self.objects@[mid as int].id@), encode_utf8(id@));
                        }
                    }
                }
                lo = mid + 1;
            } else {
                proof {
                    assert forall|k: int| mid <= k < self.objects@.len() implies bytes_lt(encode_utf8(id@), encode_utf8(#[trigger] self.objects@[k].id@)) by {
                        if k > mid {
                            lemma_bytes_lt_transitive(encode_utf8(id@), encode_utf8(self.objects@[mid as int].id@), encode_utf8(self.objects@[k].id@));
                        }
                    }
                }
                hi = mid;
            }
        }
        Err(lo)
    }

    /// The position of the object with id `id`.
    pub fn position(&self, id: &str) -> (r: Option<usize>)
        requires
            self.wf(),
        ensures
            match r {
                Some(i) => position_of(self.entries(), id@) == Some(i as int),
                None => position_of(self.entries(), id@) is None,
            },
    {
        proof {
            lemma_position_of(self.objects@, id@);
        }
        match self.locate(id) {
            Ok(i) => Some(i),
            Err(_) => {
                proof {
                    lemma_bytes_lt_irreflexive(encode_utf8(id@));
                    if position_of(self.objects@, id@) is Some {
                        let p = position_of(self.objects@, id@)->0;
                        assert(self.objects@[p].id@ == id@);
                    }
                }
                None
            },
        }
    }

    /// The object with id `id`.
    pub fn get(&self, id: &str) -> (r: Option<&ObjectRecord>)
        requires
            self.wf(),
        ensures
            match r {
                Some(o) => object_with(self.entries(), id@) == Some(*o),
                None => object_with(self.entries(), id@) is None,
            },
    {
        proof {
            lemma_position_of(self.objects@, id@);
        }
        match self.position(id) {
            Some(i) => Some(&self.objects[i]),
            None => None,
        }
    }

    /// Adds an object, or replaces the one with the same id and hands it back. The
    /// references and lineage heads are derived again afterwards.
    pub fn insert(&mut self, record: ObjectRecord) -> (r: Option<ObjectRecord>)
        requires
            old(self).wf(),
        ensures
            final(self).wf(),
            r == object_with(old(self).entries(), record.id@),
            object_with(final(self).entries(), record.id@) == Some(record),
            forall|id: Seq<char>| id != record.id@ ==> object_with(final(self).entries(), id) == object_with(old(self).entries(), id),
            final(self).entries().len() == old(self).entries().len() + (if r is Some { 0int } else { 1int }),
    {
        let ghost old_s = self.objects@;
        let ghost key = record.id@;
        proof {
            lemma_position_of(old_s, key);
        }
        match self.locate(record.id.as_str()) {
            Ok(i) => {
                let mut record = record;
                std::mem::swap(&mut self.objects[i], &mut record);
                proof {
                    let s = self.objects@;
                    assert(s =~= old_s.update(i as int, s[i as int]));
                    assert(ids_ascending(s)) by {
                        assert forall|a: int, b: int| 0 <= a < b < s.len() implies bytes_lt(encode_utf8(#[trigger] s[a].id@), encode_utf8(#[trigger] s[b].id@)) by {
                            assert(old_s[a].id@ == s[a].id@ || a == i);
                            assert(old_s[b].id@ == s[b].id@ || b == i);
                        }
                    }
                    lemma_position_of(s, key);
                    assert forall|id: Seq<char>| id != key implies object_with(s, id) == object_with(old_s, id) by {
                        lemma_position_of(s, id);
                        lemma_position_of(old_s, id);
                        if position_of(old_s, id) is Some {
                            let p = position_of(old_s, id)->0;
                            assert(s[p].id@ == id);
                        }
                        if position_of(s, id) is Some {
                            let p = position_of(s, id)->0;
                            assert(old_s[p].id@ == id);
                        }
                    }
                }
                Some(record)
            },
            Err(i) => {
                self.objects.insert(i, record);
                proof {
                    let s = self.objects@;
                    lemma_bytes_lt_irreflexive(encode_utf8(key));
                    assert(ids_ascending(s)) by {
                        assert forall|a: int, b: int| 0 <= a < b < s.len() implies bytes_lt(encode_utf8(#[trigger] s[a].id@), encode_utf8(#[trigger] s[b].id@)) by {
                            if a < i && b > i {
                                assert(s[a] == old_s[a]);
                                assert(s[b] == old_s[b - 1]);
                            } else if a < i && b == i {
                                assert(s[a] == old_s[a]);
                            } else if a == i {
                                assert(s[b] == old_s[b - 1]);
                            } else if b < i {
                                assert(s[a] == old_s[a] && s[b] == old_s[b]);
                            } else {
                                assert(s[a] == old_s[a - 1] && s[b] == old_s[b - 1]);
                            }
                        }
                    }
                    lemma_position_of(s, key);
                    assert(s[i as int].id@ == key);
                    assert forall|id: Seq<char>| id != key implies object_with(s, id) == object_with(old_s, id) by {
                        lemma_position_of(s, id);
                        lemma_position_of(old_s, id);
                        if position_of(old_s, id) is Some {
                            let p = position_of(old_s, id)->0;
                            if p < i {
                                assert(s[p] == old_s[p]);
                            } else {
                                assert(s[p + 1] == old_s[p]);
                            }
                        }
                        if position_of(s, id) is Some {
                            let p = position_of(s, id)->0;
                            if p < i {
                                assert(s[p] == old_s[p]);
                            } else if p > i {
                                assert(s[p] == old_s[p - 1]);
                            }
                        }
                    }
                    if position_of(old_s, key) is Some {
                        let p = position_of(old_s, key)->0;
                        assert(old_s[p].id@ == key);
                        if p < i {
                            assert(bytes_lt(encode_utf8(old_s[p].id@), encode_utf8(key)));
                        } else {
                            assert(bytes_lt(encode_utf8(key), encode_utf8(old_s[p].id@)));
                        }
                    }
                }
                None
            },
        }
    }

    /// Numbers the objects by their position in id order.
    pub fn assign_ordinals(&mut self)
        requires
            old(self).wf(),
        ensures
            final(self).wf(),
            final(self).entries().len() == old(self).entries().len(),
            forall|k: int| 0 <= k < final(self).entries().len() ==> {
                &&& (#[trigger] final(self).entries()[k]).ordinal == k
                &&& final(self).entries()[k] == (ObjectRecord { ordinal: k as usize, ..old(self).entries()[k] })
            },
    {
        let n = self.objects.len();
        let mut k: usize = 0;
        while k < n
            invariant
                k <= n == self.objects@.len() == old(self).objects@.len(),
                forall|i: int| 0 <= i < n ==> (#[trigger] self.objects@[i]).id == old(self).objects@[i].id,
                forall|i: int| 0 <= i < k ==> (#[trigger] self.objects@[i]) == (ObjectRecord { ordinal: i as usize, ..old(self).objects@[i] }),
                forall|i: int| k <= i < n ==> (#[trigger] self.objects@[i]) == old(self).objects@[i],
            decreases n - k,
        {
            self.objects[k].ordinal = k;
            k = k + 1;
        }
        proof {
            assert forall|a: int, b: int| 0 <= a < b < self.objects@.len() implies bytes_lt(encode_utf8(#[trigger] self.objects@[a].id@), encode_utf8(#[trigger] self.objects@[b].id@)) by {
                assert(self.objects@[a].id == old(self).objects@[a].id);
                assert(self.objects@[b].id == old(self).objects@[b].id);
            }
        }
    }

    /// The stored reference lists, one per object position.
    pub closed spec fn reference_lists(&self) -> Seq<Seq<ReferenceEdge>> {
        self.references@.map_values(|v: Vec<ReferenceEdge>| v@)
    }

    /// Files `references` under their sources, resolves their targets and puts
    /// each object's list in semantic order.
    pub fn set_references(&mut self, references: Vec<ReferenceEdge>)
        requires
            old(self).wf(),
            old(self).entries().len() < u32::MAX,
            forall|k: int| 0 <= k < references@.len() ==> position_of(old(self).entries(), (#[trigger] references@[k]).source_id@) is Some,
        ensures
            final(self).wf(),
            final(self).entries() == old(self).entries(),
            final(self).reference_lists().len() == final(self).entries().len(),
            forall|k: int| 0 <= k < final(self).entries().len() ==> {
                &&& edges_sorted(#[trigger] final(self).reference_lists()[k])
                &&& final(self).reference_lists()[k].to_multiset() == resolved_from(
                    final(self).entries(),
                    references@,
                    final(self).entries()[k].id@,
                ).to_multiset()
            },
    {
        let n = self.objects.len();
        let ghost ents = self.objects@;
        let mut buckets: Vec<Vec<ReferenceEdge>> = Vec::new();
        let mut k: usize = 0;
        while k < n
            invariant
                k <= n == ents.len(),
                buckets@.len() == k,
                forall|j: int| 0 <= j < k ==> (#[trigger] buckets@[j])@ == Seq::<ReferenceEdge>::empty(),
            decreases n - k,
        {
            buckets.push(Vec::new());
            k = k + 1;
        }
        let mut i: usize = 0;
        proof {
            assert(references@.take(0) =~= Seq::<ReferenceEdge>::empty());
        }
        while i < references.len()
            invariant
                self.objects@ == ents,
                ids_ascending(ents),
                n == ents.len() < u32::MAX,
                buckets@.len() == n,
                i <= references@.len(),
                forall|k: int| 0 <= k < references@.len() ==> position_of(ents, (#[trigger] references@[k]).source_id@) is Some,
                forall|j: int| 0 <= j < n ==> (#[trigger] buckets@[j])@ == resolved_from(ents, references@.take(i as int), ents[j].id@),
            decreases references@.len() - i,
        {
            let e = &references[i];
            proof {
                lemma_position_of(ents, e.source_id@);
                lemma_position_of(ents, e.target_id@);
            }
            let src = self.position(e.source_id.as_str()).unwrap();
            let mut c = copy_edge(e);
            c.target_ordinal = match self.position(c.target_id.as_str()) {
                Some(p) => Some((p + 1) as u32),
                None => None,
            };
            let ghost before = buckets@;
            buckets[src].push(c);
            proof {
                let t = references@.take(i + 1);
                assert(t.drop_last() =~= references@.take(i as int));
                assert(t.last() == *e);
                assert(c == resolve_in(ents, *e));
                assert forall|j: int| 0 <= j < n implies (#[trigger] buckets@[j])@ == resolved_from(ents, t, ents[j].id@) by {
                    let prev = edges_from(references@.take(i as int), ents[j].id@);
                    if j == src {
                        assert(edges_from(t, ents[j].id@) == prev.push(*e));
                        assert(prev.push(*e).map_values(|x: ReferenceEdge| resolve_in(ents, x)) =~= prev.map_values(|x: ReferenceEdge| resolve_in(ents, x)).push(resolve_in(ents, *e)));
                    } else {
                        assert(buckets@[j] == before[j]);
                        if ents[j].id@ == e.source_id@ {
                            assert(position_of(ents, e.source_id@) == Some(j));
                        }
                        assert(edges_from(t, ents[j].id@) == prev);
                    }
                }
            }
            i = i + 1;
        }
        proof {
            assert(references@.take(i as int) =~= references@);
        }
        let mut lists: Vec<Vec<ReferenceEdge>> = Vec::new();
        let mut k: usize = 0;
        while k < n
            invariant
                k <= n == buckets@.len() == ents.len(),
                lists@.len() == k,
                forall|j: int| k <= j < n ==> (#[trigger] buckets@[j])@ == resolved_from(ents, references@, ents[j].id@),
                forall|j: int| 0 <= j < k ==> edges_sorted((#[trigger] lists@[j])@) && lists@[j]@.to_multiset()
                    == resolved_from(ents, references@, ents[j].id@).to_multiset(),
            decreases n - k,
        {
            let mut b: Vec<ReferenceEdge> = Vec::new();
            let ghost before = buckets@;
            std::mem::swap(&mut b, &mut buckets[k]);
            proof {
                assert forall|j: int| k < j < n implies (#[trigger] buckets@[j])@ == resolved_from(ents, references@, ents[j].id@) by {
                    assert(buckets@[j] == before[j]);
                }
            }
            let sorted = sort_edges(b);
            lists.push(sorted);
            k = k + 1;
        }
        self.references = lists;
        proof {
            assert forall|k: int| 0 <= k < n implies #[trigger] self.reference_lists()[k] == self.references@[k]@ by {}
        }
    }

    /// The references declared by the object `id`, in semantic order.
    pub fn references_from(&self, id: &str) -> (r: &[ReferenceEdge])
        requires
            self.wf(),
        ensures
            match position_of(self.entries(), id@) {
                Some(p) => r@ == (if p < self.reference_lists().len() {
                    self.reference_lists()[p]
                } else {
                    Seq::<ReferenceEdge>::empty()
                }),
                None => r@ == Seq::<ReferenceEdge>::empty(),
            },
    {
        match self.position(id) {
            Some(p) => {
                if p < self.references.len() {
                    self.references[p].as_slice()
                } else {
                    &[]
                }
            },
            None => &[],
        }
    }

    /// Every object knows whether some object names it as a revision parent.
    pub closed spec fn heads_ready(&self) -> bool {
        &&& self.parent_marks@.len() == self.objects@.len()
        &&& forall|k: int| 0 <= k < self.objects@.len() ==> #[trigger] self.parent_marks@[k] == is_parent(self.objects@, self.objects@[k].id@)
    }

    /// Marks every object that some lineage names as a parent.
    pub fn derive_heads(&mut self)
        requires
            old(self).wf(),
        ensures
            final(self).wf(),
            final(self).heads_ready(),
            final(self).entries() == old(self).entries(),
            final(self).reference_lists() == old(self).reference_lists(),
    {
        let n = self.objects.len();
        let ghost s = self.objects@;
        let mut marks: Vec<bool> = Vec::new();
        let mut k: usize = 0;
        while k < n
            invariant
                k <= n == s.len(),
                marks@.len() == k,
                forall|j: int| 0 <= j < k ==> !(#[trigger] marks@[j]),
            decreases n - k,
        {
            marks.push(false);
            k = k + 1;
        }
        let mut o: usize = 0;
        while o < n
            invariant
                self.objects@ == s,
                ids_ascending(s),
                n == s.len(),
                o <= n,
                marks@.len() == n,
                forall|j: int| 0 <= j < n ==> #[trigger] marks@[j] == exists|q: int| 0 <= q < o && lists_parent(#[trigger] s[q], s[j].id@),
            decreases n - o,
        {
            let ob = &self.objects[o];
            let lineage = match ob.object_type {
                ObjectType::Node(_) | ObjectType::Relation | ObjectType::ThreadBinding => ob.logical_id.is_some(),
                _ => false,
            };
            let items: &[JsonValue] = if lineage {
                match ob.value.at_pointer("/revision/parents") {
                    Some(v) => match v.as_array() {
                        Some(items) => items.as_slice(),
                        None => &[],
                    },
                    None => &[],
                }
            } else {
                &[]
            };
            proof {
                if items@.len() > 0 {
                    assert(has_lineage(ob.object_type) && ob.logical_id is Some);
                    assert(as_items(json_pointer(ob.value, "/revision/parents"@)) == Some(items@));
                }
            }
            let mut i: usize = 0;
            while i < items.len()
                invariant
                    self.objects@ == s,
                    ids_ascending(s),
                    n == s.len(),
                    o < n,
                    *ob == s[o as int],
                    items@.len() > 0 ==> has_lineage(ob.object_type) && ob.logical_id is Some && as_items(json_pointer(ob.value, "/revision/parents"@)) == Some(items@),
                    i <= items@.len(),
                    marks@.len() == n,
                    forall|j: int| 0 <= j < n ==> #[trigger] marks@[j] == ((exists|q: int| 0 <= q < o && lists_parent(#[trigger] s[q], s[j].id@))
                        || (exists|t: int| 0 <= t < i && item_target(#[trigger] items@[t], true) == Some(s[j].id@))),
                decreases items@.len() - i,
            {
                match item_target_of(&items[i], true) {
                    Some(t) => {
                        proof {
                            lemma_position_of(s, t@);
                        }
                        match self.position(t) {
                            Some(p) => {
                                let ghost before = marks@;
                                marks.set(p, true);
                                proof {
                                    assert forall|j: int| 0 <= j < n implies #[trigger] marks@[j] == ((exists|q: int| 0 <= q < o && lists_parent(#[trigger] s[q], s[j].id@))
                                        || (exists|u: int| 0 <= u < i + 1 && item_target(#[trigger] items@[u], true) == Some(s[j].id@))) by {
                                        if j == p {
                                            assert(item_target(items@[i as int], true) == Some(s[j].id@));
                                        } else {
                                            assert(marks@[j] == before[j]);
                                            if item_target(items@[i as int], true) == Some(s[j].id@) {
                                                assert(position_of(s, t@) == Some(j));
                                            }
                                        }
                                    }
                                }
                            },
                            None => {
                                proof {
                                    assert forall|j: int| 0 <= j < n implies #[trigger] marks@[j] == ((exists|q: int| 0 <= q < o && lists_parent(#[trigger] s[q], s[j].id@))
                                        || (exists|u: int| 0 <= u < i + 1 && item_target(#[trigger] items@[u], true) == Some(s[j].id@))) by {
                                        if item_target(items@[i as int], true) == Some(s[j].id@) {
                                            assert(s[j].id@ == t@);
                                        }
                                    }
                                }
                            },
                        }
                    },
                    None => {},
                }
                i = i + 1;
            }
            proof {
                assert forall|j: int| 0 <= j < n implies #[trigger] marks@[j] == exists|q: int| 0 <= q < o + 1 && lists_parent(#[trigger] s[q], s[j].id@) by {
                    if lists_parent(s[o as int], s[j].id@) {
                        let its = as_items(json_pointer(s[o as int].value, "/revision/parents"@))->0;
                        let w = choose|w: int| 0 <= w < its.len() && item_target(#[trigger] its[w], true) == Some(s[j].id@);
                        if lineage {
                            assert(items@ == its);
                        }
                    }
                }
            }
            o = o + 1;
        }
        self.parent_marks = marks;
        proof {
            assert forall|k: int| 0 <= k < n implies #[trigger] self.parent_marks@[k] == is_parent(s, s[k].id@) by {}
        }
    }

    /// Whether some object names the object at position `k` as a revision parent.
    pub fn named_as_parent(&self, k: usize) -> (r: bool)
        requires
            self.heads_ready(),
            k < self.entries().len(),
        ensures
            r == is_parent(self.entries(), self.entries()[k as int].id@),
    {
        self.parent_marks[k]
    }

    /// The ids of the lineage `logical_id` that no object names as a parent.
    pub fn heads_for(&self, logical_id: &str) -> (r: Vec<&str>)
        requires
            self.heads_ready(),
        ensures
            r@.map_values(|x: &str| x@) == heads_of(self.entries(), logical_id@, self.entries().len() as int),
    {
        let mut out: Vec<&str> = Vec::new();
        let mut k: usize = 0;
        while k < self.objects.len()
            invariant
                self.heads_ready(),
                k <= self.objects@.len(),
                out@.map_values(|x: &str| x@) == heads_of(self.objects@, logical_id@, k as int),
            decreases self.objects@.len() - k,
        {
            let o = &self.objects[k];
            let in_lineage = match &o.logical_id {
                Some(l) => str_eq(l.as_str(), logical_id),
                None => false,
            };
            if in_lineage && !self.parent_marks[k] {
                let ghost before = out@;
                out.push(o.id.as_str());
                proof {
                    assert(out@.map_values(|x: &str| x@) =~= before.map_values(|x: &str| x@).push(o.id@));
                }
            }
            k = k + 1;
        }
        out
    }

    /// A well-formed index lists its objects in ascending id order.
    pub proof fn lemma_wf_ascending(&self)
        requires
            self.wf(),
        ensures
            ids_ascending(self.entries()),
    {
    }
}


} // verus!
