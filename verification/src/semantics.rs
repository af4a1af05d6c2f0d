//! Cross-object checks of an indexed project: references, lineages, relation kinds,
//! assessment supersession and revision cycles.
use vstd::prelude::*;

use crate::finding::{sanitized, Finding, ProjectPath, Severity};
use crate::findings::Findings;
use crate::index::{item_pointer, item_target, lemma_position_of, object_with, position_of, push_decimal, ObjectRecord, ProjectIndex};
use crate::json::{as_items, as_text, json_get, json_pointer, opt_json_eq, json_equal};
use crate::project::{relation_compatible, relation_kinds_compatible, resource_finding, ProjectLimits};
use crate::cycles::{find_cycle, on_cycle, CycleClass, CycleSearch};
use crate::report_json::JsonValue;
use crate::model::{expectation_accepts, expectation_label, object_label, ObjectType, ReferenceEdge, ReferenceExpectation};
use crate::text::{str_eq, string_push_str};

verus! {

/// The diagnostic owed for one reference: its code, family and message.
pub open spec fn reference_problem(s: Seq<ObjectRecord>, e: ReferenceEdge) -> Option<(Seq<char>, Seq<char>, Seq<char>)> {
    match object_with(s, e.target_id@) {
        Some(t) => if expectation_accepts(e.expected, t.object_type) {
            None
        } else {
            Some((
                "RP_E_REFERENCE_TYPE_MISMATCH"@,
                "reference_integrity"@,
                "reference expects "@ + expectation_label(e.expected) + ", but target is "@ + object_label(t.object_type),
            ))
        },
        None => {
            let source = object_with(s, e.source_id@)->0;
            if source.object_type is ThreadBinding && (e.json_pointer@ == "/thread_id"@ || e.json_pointer@ == "/target/id"@) {
                Some((
                    "RP_E_ORPHAN_THREAD_BINDING"@,
                    "thread_binding_integrity"@,
                    "thread binding target "@ + e.target_id@ + " was not found"@,
                ))
            } else if e.expected is Node || e.expected is NodeKind || e.expected is Relation || e.expected is ThreadBinding {
                Some((
                    "RP_E_DANGLING_REVISION_REFERENCE"@,
                    "reference_integrity"@,
                    "exact revision "@ + e.target_id@ + " was not found"@,
                ))
            } else {
                Some((
                    "RP_E_REFERENCE_NOT_FOUND"@,
                    "reference_integrity"@,
                    "referenced object "@ + e.target_id@ + " was not found"@,
                ))
            }
        },
    }
}

/// `f` is the diagnostic owed for the reference `e`, placed in its source's file.
pub open spec fn reports_reference(f: Finding, s: Seq<ObjectRecord>, e: ReferenceEdge) -> bool {
    match reference_problem(s, e) {
        Some((code, family, message)) => {
            &&& f.error_code@ == code
            &&& f.finding_family@ == family
            &&& f.severity == Severity::Error
            &&& f.message@ == sanitized(message)
            &&& f.source_file == Some(object_with(s, e.source_id@)->0.source_file)
            &&& f.json_pointer@ == e.json_pointer@
        },
        None => false,
    }
}

/// The edges of `edges` that owe a diagnostic, in their order.
pub open spec fn problem_edges(s: Seq<ObjectRecord>, edges: Seq<ReferenceEdge>) -> Seq<ReferenceEdge>
    decreases edges.len(),
{
    if edges.len() == 0 {
        Seq::empty()
    } else if reference_problem(s, edges.last()) is Some {
        problem_edges(s, edges.drop_last()).push(edges.last())
    } else {
        problem_edges(s, edges.drop_last())
    }
}

/// Every edge that owes a diagnostic is one of `edges`.
pub proof fn lemma_problem_edges_members(s: Seq<ObjectRecord>, edges: Seq<ReferenceEdge>)
    ensures
        forall|i: int| 0 <= i < problem_edges(s, edges).len() ==> exists|r: int| 0 <= r < edges.len()
            && edges[r] == #[trigger] problem_edges(s, edges)[i],
    decreases edges.len(),
{
    if edges.len() > 0 {
        let d = edges.drop_last();
        lemma_problem_edges_members(s, d);
        assert forall|i: int| 0 <= i < problem_edges(s, edges).len() implies exists|r: int| 0 <= r < edges.len()
            && edges[r] == #[trigger] problem_edges(s, edges)[i] by {
            if i < problem_edges(s, d).len() {
                let r = choose|r: int| 0 <= r < d.len() && d[r] == problem_edges(s, d)[i];
                assert(edges[r] == d[r]);
            } else {
                assert(edges[edges.len() - 1] == problem_edges(s, edges)[i]);
            }
        }
    }
}

/// `made` reports, one each and in order, every edge that owes a diagnostic among the
/// first `m` of `edges`, for some `m`.
pub open spec fn reported_in_order(made: Seq<Finding>, s: Seq<ObjectRecord>, edges: Seq<ReferenceEdge>) -> bool {
    exists|m: int|
        {
            &&& 0 <= m <= edges.len()
            &&& made.len() == problem_edges(s, edges.take(m)).len()
            &&& forall|i: int| 0 <= i < made.len() ==> reports_reference(#[trigger] made[i], s, problem_edges(s, edges.take(m))[i])
        }
}

/// The diagnostic owed for `e`, if any.
fn reference_finding(index: &ProjectIndex, e: &ReferenceEdge) -> (r: Option<Finding>)
    requires
        index.wf(),
        position_of(index.entries(), e.source_id@) is Some,
    ensures
        match r {
            Some(f) => reports_reference(f, index.entries(), *e),
            None => reference_problem(index.entries(), *e) is None,
        },
{
    proof {
        reveal_strlit("/thread_id");
        reveal_strlit("/target/id");
    }
    let source = index.get(e.source_id.as_str()).unwrap();
    match index.get(e.target_id.as_str()) {
        Some(target) => {
            if e.expected.accepts(&target.object_type) {
                None
            } else {
                let mut m = String::new();
                string_push_str(&mut m, "reference expects ");
                string_push_str(&mut m, e.expected.label());
                string_push_str(&mut m, ", but target is ");
                string_push_str(&mut m, target.object_type.label());
                Some(Finding::new(
                    "RP_E_REFERENCE_TYPE_MISMATCH",
                    "reference_integrity",
                    Severity::Error,
                    m.as_str(),
                    Some(source.source_file.clone_path()),
                    e.json_pointer.as_str(),
                ))
            }
        },
        None => {
            let binding = match source.object_type {
                ObjectType::ThreadBinding => true,
                _ => false,
            };
            let revision = match e.expected {
                ReferenceExpectation::Node | ReferenceExpectation::NodeKind(_) | ReferenceExpectation::Relation
                | ReferenceExpectation::ThreadBinding => true,
                _ => false,
            };
            let mut m = String::new();
            if binding && (str_eq(e.json_pointer.as_str(), "/thread_id") || str_eq(e.json_pointer.as_str(), "/target/id")) {
                string_push_str(&mut m, "thread binding target ");
                string_push_str(&mut m, e.target_id.as_str());
                string_push_str(&mut m, " was not found");
                Some(Finding::new(
                    "RP_E_ORPHAN_THREAD_BINDING",
                    "thread_binding_integrity",
                    Severity::Error,
                    m.as_str(),
                    Some(source.source_file.clone_path()),
                    e.json_pointer.as_str(),
                ))
            } else if revision {
                string_push_str(&mut m, "exact revision ");
                string_push_str(&mut m, e.target_id.as_str());
                string_push_str(&mut m, " was not found");
                Some(Finding::new(
                    "RP_E_DANGLING_REVISION_REFERENCE",
                    "reference_integrity",
                    Severity::Error,
                    m.as_str(),
                    Some(source.source_file.clone_path()),
                    e.json_pointer.as_str(),
                ))
            } else {
                string_push_str(&mut m, "referenced object ");
                string_push_str(&mut m, e.target_id.as_str());
                string_push_str(&mut m, " was not found");
                Some(Finding::new(
                    "RP_E_REFERENCE_NOT_FOUND",
                    "reference_integrity",
                    Severity::Error,
                    m.as_str(),
                    Some(source.source_file.clone_path()),
                    e.json_pointer.as_str(),
                ))
            }
        },
    }
}

/// Reports every reference whose target is missing or of the wrong kind, in order,
/// while the run is neither stopped nor out of allowance; it ends at the first
/// diagnostic the allowance refuses, as every later one would be refused too.
pub fn validate_references(index: &ProjectIndex, references: &[ReferenceEdge], findings: &mut Findings)
    requires
        index.wf(),
        old(findings).wf(),
        forall|k: int| 0 <= k < references@.len() ==> position_of(index.entries(), (#[trigger] references@[k]).source_id@) is Some,
    ensures
        final(findings).wf(),
        final(findings).shares_allowance(&*old(findings)),
        final(findings).retained().len() >= old(findings).retained().len(),
        final(findings).retained().take(old(findings).retained().len() as int) == old(findings).retained(),
        reported_in_order(
            final(findings).retained().skip(old(findings).retained().len() as int),
            index.entries(),
            references@,
        ),
{
    let ghost start = findings.retained();
    let ghost s = index.entries();
    proof {
        crate::findings::lemma_shares_allowance(&*findings, &*findings, &*findings);
    }
    let mut i: usize = 0;
    proof {
        assert(references@.take(0) =~= Seq::<ReferenceEdge>::empty());
    }
    while i < references.len()
        invariant
            index.wf(),
            s == index.entries(),
            findings.wf(),
            findings.shares_allowance(&*old(findings)),
            start == old(findings).retained(),
            forall|k: int| 0 <= k < references@.len() ==> position_of(s, (#[trigger] references@[k]).source_id@) is Some,
            i <= references@.len(),
            findings.retained().len() >= start.len(),
            findings.retained().take(start.len() as int) == start,
            findings.retained().len() - start.len() == problem_edges(s, references@.take(i as int)).len(),
            forall|a: int| 0 <= a < findings.retained().len() - start.len() ==> reports_reference(
                #[trigger] findings.retained()[start.len() + a],
                s,
                problem_edges(s, references@.take(i as int))[a],
            ),
        decreases references@.len() - i,
    {
        if findings.cancelled() {
            break;
        }
        let ghost pe = problem_edges(s, references@.take(i as int));
        proof {
            assert(references@.take(i + 1).drop_last() =~= references@.take(i as int));
            assert(references@.take(i + 1).last() == references@[i as int]);
        }
        match reference_finding(index, &references[i]) {
            Some(f) => {
                let ghost before = findings.retained();
                let ghost prior = *findings;
                let ghost expected = f;
                let make = || -> (g: Finding)
                    ensures
                        g == expected,
                    { f };
                let admitted = findings.push_admitted(make);
                proof {
                    crate::findings::lemma_shares_allowance(&*findings, &prior, &*old(findings));
                }
                if !admitted {
                    break;
                }
                proof {
                    assert(findings.retained().last() == expected);
                    assert(findings.retained().drop_last() == before);
                    assert(findings.retained().take(start.len() as int) =~= before.take(start.len() as int));
                    assert(problem_edges(s, references@.take(i + 1)) == pe.push(references@[i as int]));
                    assert forall|a: int| 0 <= a < findings.retained().len() - start.len() implies reports_reference(
                        #[trigger] findings.retained()[start.len() + a],
                        s,
                        problem_edges(s, references@.take(i + 1))[a],
                    ) by {
                        if a < pe.len() {
                            assert(findings.retained()[start.len() + a] == before[start.len() + a]);
                        }
                    }
                }
            },
            None => {
                proof {
                    assert(problem_edges(s, references@.take(i + 1)) == pe);
                }
            },
        }
        i = i + 1;
    }
    proof {
        let made = findings.retained().skip(start.len() as int);
        let m = i as int;
        assert forall|a: int| 0 <= a < made.len() implies reports_reference(#[trigger] made[a], s, problem_edges(s, references@.take(m))[a]) by {
            assert(made[a] == findings.retained()[start.len() + a]);
        }
    }
}

/// What one diagnostic must say: code, family, message, file and pointer. Every
/// diagnostic of these checks is an error.
pub open spec fn is_owed(f: Finding, o: (Seq<char>, Seq<char>, Seq<char>, ProjectPath, Seq<char>)) -> bool {
    &&& f.error_code@ == o.0
    &&& f.finding_family@ == o.1
    &&& f.severity == Severity::Error
    &&& f.message@ == sanitized(o.2)
    &&& f.source_file == Some(o.3)
    &&& f.json_pointer@ == o.4
}

/// `made` reports some of the diagnostics `owed`, each once, in their order.
pub open spec fn reported_from(made: Seq<Finding>, owed: Seq<(Seq<char>, Seq<char>, Seq<char>, ProjectPath, Seq<char>)>) -> bool {
    exists|idx: Seq<int>|
        {
            &&& idx.len() == made.len()
            &&& forall|i: int, j: int| 0 <= i < j < idx.len() ==> idx[i] < idx[j]
            &&& forall|i: int| 0 <= i < idx.len() ==> 0 <= #[trigger] idx[i] < owed.len() && is_owed(made[i], owed[idx[i]])
        }
}

pub proof fn lemma_reported_empty(owed: Seq<(Seq<char>, Seq<char>, Seq<char>, ProjectPath, Seq<char>)>)
    ensures
        reported_from(Seq::empty(), owed),
{
    let idx = Seq::<int>::empty();
    assert(idx.len() == 0);
}

/// Each reported diagnostic is one of those owed.
pub proof fn lemma_reported_members(made: Seq<Finding>, owed: Seq<(Seq<char>, Seq<char>, Seq<char>, ProjectPath, Seq<char>)>)
    requires
        reported_from(made, owed),
    ensures
        forall|i: int| 0 <= i < made.len() ==> owes(owed, #[trigger] made[i]),
{
    let idx = choose|idx: Seq<int>|
        {
            &&& idx.len() == made.len()
            &&& forall|i: int, j: int| 0 <= i < j < idx.len() ==> idx[i] < idx[j]
            &&& forall|i: int| 0 <= i < idx.len() ==> 0 <= #[trigger] idx[i] < owed.len() && is_owed(made[i], owed[idx[i]])
        };
    assert forall|i: int| 0 <= i < made.len() implies owes(owed, #[trigger] made[i]) by {
        assert(0 <= idx[i] < owed.len() && is_owed(made[i], owed[idx[i]]));
    }
}

/// `f` is one of the diagnostics `owed`.
pub open spec fn owes(owed: Seq<(Seq<char>, Seq<char>, Seq<char>, ProjectPath, Seq<char>)>, f: Finding) -> bool {
    exists|j: int| 0 <= j < owed.len() && is_owed(f, #[trigger] owed[j])
}

pub proof fn lemma_reported_extend(
    made: Seq<Finding>,
    owed: Seq<(Seq<char>, Seq<char>, Seq<char>, ProjectPath, Seq<char>)>,
    more: Seq<(Seq<char>, Seq<char>, Seq<char>, ProjectPath, Seq<char>)>,
)
    requires
        reported_from(made, owed),
    ensures
        reported_from(made, owed + more),
{
    let idx = choose|idx: Seq<int>|
        {
            &&& idx.len() == made.len()
            &&& forall|i: int, j: int| 0 <= i < j < idx.len() ==> idx[i] < idx[j]
            &&& forall|i: int| 0 <= i < idx.len() ==> 0 <= #[trigger] idx[i] < owed.len() && is_owed(made[i], owed[idx[i]])
        };
    assert forall|i: int| 0 <= i < idx.len() implies 0 <= #[trigger] idx[i] < (owed + more).len() && is_owed(made[i], (owed + more)[idx[i]]) by {
        assert((owed + more)[idx[i]] == owed[idx[i]]);
    }
}

pub proof fn lemma_reported_push(
    made: Seq<Finding>,
    owed: Seq<(Seq<char>, Seq<char>, Seq<char>, ProjectPath, Seq<char>)>,
    f: Finding,
    o: (Seq<char>, Seq<char>, Seq<char>, ProjectPath, Seq<char>),
)
    requires
        reported_from(made, owed),
        is_owed(f, o),
    ensures
        reported_from(made.push(f), owed.push(o)),
{
    let idx = choose|idx: Seq<int>|
        {
            &&& idx.len() == made.len()
            &&& forall|i: int, j: int| 0 <= i < j < idx.len() ==> idx[i] < idx[j]
            &&& forall|i: int| 0 <= i < idx.len() ==> 0 <= #[trigger] idx[i] < owed.len() && is_owed(made[i], owed[idx[i]])
        };
    let n = idx.push(owed.len() as int);
    assert forall|i: int| 0 <= i < n.len() implies 0 <= #[trigger] n[i] < owed.push(o).len() && is_owed(made.push(f)[i], owed.push(o)[n[i]]) by {
        if i < idx.len() {
            assert(n[i] == idx[i]);
        }
    }
    assert forall|i: int, j: int| 0 <= i < j < n.len() implies n[i] < n[j] by {
        if j < idx.len() {
            assert(n[i] == idx[i] && n[j] == idx[j]);
        } else {
            assert(n[i] == idx[i]);
        }
    }
    assert({
        &&& n.len() == made.push(f).len()
        &&& forall|i: int, j: int| 0 <= i < j < n.len() ==> n[i] < n[j]
        &&& forall|i: int| 0 <= i < n.len() ==> 0 <= #[trigger] n[i] < owed.push(o).len() && is_owed(made.push(f)[i], owed.push(o)[n[i]])
    });
}

pub proof fn lemma_reported_concat(
    m1: Seq<Finding>,
    o1: Seq<(Seq<char>, Seq<char>, Seq<char>, ProjectPath, Seq<char>)>,
    m2: Seq<Finding>,
    o2: Seq<(Seq<char>, Seq<char>, Seq<char>, ProjectPath, Seq<char>)>,
)
    requires
        reported_from(m1, o1),
        reported_from(m2, o2),
    ensures
        reported_from(m1 + m2, o1 + o2),
{
    let i1 = choose|idx: Seq<int>|
        {
            &&& idx.len() == m1.len()
            &&& forall|i: int, j: int| 0 <= i < j < idx.len() ==> idx[i] < idx[j]
            &&& forall|i: int| 0 <= i < idx.len() ==> 0 <= #[trigger] idx[i] < o1.len() && is_owed(m1[i], o1[idx[i]])
        };
    let i2 = choose|idx: Seq<int>|
        {
            &&& idx.len() == m2.len()
            &&& forall|i: int, j: int| 0 <= i < j < idx.len() ==> idx[i] < idx[j]
            &&& forall|i: int| 0 <= i < idx.len() ==> 0 <= #[trigger] idx[i] < o2.len() && is_owed(m2[i], o2[idx[i]])
        };
    let shifted = i2.map_values(|x: int| x + o1.len());
    let n = i1 + shifted;
    assert forall|i: int| 0 <= i < n.len() implies 0 <= #[trigger] n[i] < (o1 + o2).len() && is_owed((m1 + m2)[i], (o1 + o2)[n[i]]) by {
        if i < i1.len() {
            assert(n[i] == i1[i]);
        } else {
            assert(n[i] == i2[i - i1.len()] + o1.len());
            assert(shifted[i - i1.len()] == i2[i - i1.len()] + o1.len());
        }
    }
    assert forall|i: int, j: int| 0 <= i < j < n.len() implies n[i] < n[j] by {
        if j < i1.len() {
            assert(n[i] == i1[i] && n[j] == i1[j]);
        } else if i < i1.len() {
            assert(n[i] == i1[i]);
            assert(n[j] == i2[j - i1.len()] + o1.len());
        } else {
            assert(n[i] == i2[i - i1.len()] + o1.len());
            assert(n[j] == i2[j - i1.len()] + o1.len());
        }
    }
    assert({
        &&& n.len() == (m1 + m2).len()
        &&& forall|i: int, j: int| 0 <= i < j < n.len() ==> n[i] < n[j]
        &&& forall|i: int| 0 <= i < n.len() ==> 0 <= #[trigger] n[i] < (o1 + o2).len() && is_owed((m1 + m2)[i], (o1 + o2)[n[i]])
    });
}

/// Reports `f` as an error, where the allowance admits it.
pub(crate) fn report(findings: &mut Findings, f: Finding)
    requires
        old(findings).wf(),
        f.severity == Severity::Error,
    ensures
        final(findings).wf(),
        final(findings).shares_allowance(&*old(findings)),
        final(findings).retained() == old(findings).retained() || final(findings).retained() == old(findings).retained().push(f),
{
    let ghost expected = f;
    let make = || -> (g: Finding)
        ensures
            g == expected,
        { f };
    let admitted = findings.push_admitted(make);
    proof {
        if admitted {
            assert(findings.retained() =~= old(findings).retained().push(f));
        }
    }
}

/// Whether two optional texts are equal.
pub open spec fn same_text(a: Option<String>, b: Option<String>) -> bool {
    match (a, b) {
        (None, None) => true,
        (Some(x), Some(y)) => x@ == y@,
        _ => false,
    }
}

fn same_opt_str(a: &Option<String>, b: &Option<String>) -> (r: bool)
    ensures
        r == same_text(*a, *b),
{
    match (a, b) {
        (None, None) => true,
        (Some(x), Some(y)) => str_eq(x.as_str(), y.as_str()),
        _ => false,
    }
}

/// One lineage diagnostic.
pub open spec fn lineage_owed(o: ObjectRecord, code: Seq<char>, family: Seq<char>, message: Seq<char>, p: nat)
    -> (Seq<char>, Seq<char>, Seq<char>, ProjectPath, Seq<char>) {
    (code, family, message, o.source_file, item_pointer("/revision/parents"@, p, true))
}

/// `cond`'s diagnostic, or none.
pub open spec fn owed_if(cond: bool, o: (Seq<char>, Seq<char>, Seq<char>, ProjectPath, Seq<char>))
    -> Seq<(Seq<char>, Seq<char>, Seq<char>, ProjectPath, Seq<char>)> {
    if cond { seq![o] } else { Seq::empty() }
}

/// The diagnostics owed for the `p`-th revision parent of `o`.
pub open spec fn parent_problems(s: Seq<ObjectRecord>, o: ObjectRecord, items: Seq<JsonValue>, p: int)
    -> Seq<(Seq<char>, Seq<char>, Seq<char>, ProjectPath, Seq<char>)> {
    match item_target(items[p], true) {
        None => Seq::empty(),
        Some(pid) => match object_with(s, pid) {
            None => Seq::empty(),
            Some(parent) => {
                let other_lineage = !same_text(o.logical_id, parent.logical_id);
                let pn = p as nat;
                match (o.object_type, parent.object_type) {
                    (ObjectType::Node(kind), ObjectType::Node(parent_kind)) =>
                        owed_if(other_lineage, lineage_owed(o, "RP_E_NODE_LINEAGE_LOGICAL_ID_MISMATCH"@, "node_lineage"@,
                            "node parent belongs to a different logical lineage"@, pn))
                        + owed_if(kind@ != parent_kind@, lineage_owed(o, "RP_E_NODE_LINEAGE_KIND_MISMATCH"@, "node_lineage"@,
                            "node parent has an incompatible kind"@, pn)),
                    (ObjectType::Relation, ObjectType::Relation) =>
                        owed_if(other_lineage, lineage_owed(o, "RP_E_RELATION_LINEAGE_LOGICAL_ID_MISMATCH"@, "relation_lineage"@,
                            "relation parent belongs to a different logical lineage"@, pn))
                        + owed_if(!opt_json_eq(json_get(o.value, "type"@), json_get(parent.value, "type"@)),
                            lineage_owed(o, "RP_E_RELATION_LINEAGE_TYPE_MISMATCH"@, "relation_lineage"@,
                            "relation parent has a different relation type"@, pn)),
                    (ObjectType::ThreadBinding, ObjectType::ThreadBinding) =>
                        owed_if(other_lineage, lineage_owed(o, "RP_E_BINDING_LINEAGE_LOGICAL_ID_MISMATCH"@, "binding_lineage"@,
                            "binding parent belongs to a different logical lineage"@, pn))
                        + owed_if(!opt_json_eq(json_get(o.value, "thread_id"@), json_get(parent.value, "thread_id"@))
                            || !opt_json_eq(json_get(o.value, "target"@), json_get(parent.value, "target"@)),
                            lineage_owed(o, "RP_E_BINDING_LINEAGE_CONTEXT_MISMATCH"@, "binding_lineage"@,
                            "binding parent has a different thread or exact target context"@, pn)),
                    _ => Seq::empty(),
                }
            },
        },
    }
}

/// The revision parents of an object, where it lists them.
pub open spec fn parents_of(o: ObjectRecord) -> Seq<JsonValue> {
    match as_items(json_pointer(o.value, "/revision/parents"@)) {
        Some(items) => items,
        None => Seq::empty(),
    }
}

/// The lineage diagnostics owed for the first `m` parents of `o`.
pub open spec fn object_lineage(s: Seq<ObjectRecord>, o: ObjectRecord, m: int)
    -> Seq<(Seq<char>, Seq<char>, Seq<char>, ProjectPath, Seq<char>)>
    decreases m,
{
    if m <= 0 {
        Seq::empty()
    } else {
        object_lineage(s, o, m - 1) + parent_problems(s, o, parents_of(o), m - 1)
    }
}

/// The lineage diagnostics owed for the first `n` objects, object by object.
pub open spec fn lineage_problems(s: Seq<ObjectRecord>, n: int)
    -> Seq<(Seq<char>, Seq<char>, Seq<char>, ProjectPath, Seq<char>)>
    decreases n,
{
    if n <= 0 {
        Seq::empty()
    } else {
        lineage_problems(s, n - 1) + object_lineage(s, s[n - 1], parents_of(s[n - 1]).len() as int)
    }
}

fn lineage_finding(o: &ObjectRecord, code: &'static str, family: &'static str, message: &'static str, p: usize) -> (f: Finding)
    ensures
        is_owed(f, lineage_owed(*o, code@, family@, message@, p as nat)),
{
    let mut ptr = String::new();
    string_push_str(&mut ptr, "/revision/parents");
    string_push_str(&mut ptr, "/");
    push_decimal(&mut ptr, p);
    string_push_str(&mut ptr, "/id");
    Finding::new(code, family, Severity::Error, message, Some(o.source_file.clone_path()), ptr.as_str())
}

/// Equality of a member of two values, as `Option<&Value>` compares.
fn same_member(a: &JsonValue, b: &JsonValue, key: &str) -> (r: bool)
    ensures
        r == opt_json_eq(json_get(*a, key@), json_get(*b, key@)),
{
    match (a.get(key), b.get(key)) {
        (None, None) => true,
        (Some(x), Some(y)) => json_equal(x, y),
        _ => false,
    }
}

/// Reports `f`, the one diagnostic of `w`, or nothing where `w` owes none.
pub(crate) fn report_opt(findings: &mut Findings, f: Option<Finding>, Ghost(w): Ghost<Seq<(Seq<char>, Seq<char>, Seq<char>, ProjectPath, Seq<char>)>>)
    requires
        old(findings).wf(),
        f is None ==> w.len() == 0,
        f matches Some(x) ==> w.len() == 1 && is_owed(x, w[0]),
    ensures
        final(findings).wf(),
        final(findings).shares_allowance(&*old(findings)),
        final(findings).retained().len() >= old(findings).retained().len(),
        final(findings).retained().take(old(findings).retained().len() as int) == old(findings).retained(),
        reported_from(final(findings).retained().skip(old(findings).retained().len() as int), w),
{
    let ghost start = findings.retained();
    proof {
        crate::findings::lemma_shares_allowance(&*findings, &*findings, &*findings);
        lemma_reported_empty(Seq::empty());
    }
    match f {
        Some(x) => {
            let ghost fx = x;
            report(findings, x);
            proof {
                if findings.retained() == start.push(fx) {
                    assert(findings.retained().skip(start.len() as int) =~= Seq::<Finding>::empty().push(fx));
                    lemma_reported_push(Seq::empty(), Seq::empty(), fx, w[0]);
                    assert(Seq::<(Seq<char>, Seq<char>, Seq<char>, ProjectPath, Seq<char>)>::empty().push(w[0]) =~= w);
                } else {
                    assert(findings.retained().skip(start.len() as int) =~= Seq::<Finding>::empty());
                    lemma_reported_extend(Seq::empty(), Seq::empty(), w);
                    assert(Seq::<(Seq<char>, Seq<char>, Seq<char>, ProjectPath, Seq<char>)>::empty() + w =~= w);
                }
                assert(findings.retained().take(start.len() as int) =~= start);
            }
        },
        None => {
            proof {
                assert(findings.retained().skip(start.len() as int) =~= Seq::<Finding>::empty());
                assert(findings.retained().take(start.len() as int) =~= start);
                assert(w =~= Seq::<(Seq<char>, Seq<char>, Seq<char>, ProjectPath, Seq<char>)>::empty());
            }
        },
    }
}

/// Two reports in a row report from the concatenation of what each owed.
pub proof fn lemma_reported_steps(
    a: Seq<Finding>,
    b: Seq<Finding>,
    c: Seq<Finding>,
    w1: Seq<(Seq<char>, Seq<char>, Seq<char>, ProjectPath, Seq<char>)>,
    w2: Seq<(Seq<char>, Seq<char>, Seq<char>, ProjectPath, Seq<char>)>,
)
    requires
        a.len() <= b.len() <= c.len(),
        b.take(a.len() as int) == a,
        c.take(b.len() as int) == b,
        reported_from(b.skip(a.len() as int), w1),
        reported_from(c.skip(b.len() as int), w2),
    ensures
        c.take(a.len() as int) == a,
        reported_from(c.skip(a.len() as int), w1 + w2),
{
    assert(c.skip(a.len() as int) =~= b.skip(a.len() as int) + c.skip(b.len() as int)) by {
        assert forall|k: int| 0 <= k < b.len() - a.len() implies c.skip(a.len() as int)[k] == b.skip(a.len() as int)[k] by {
            assert(c[a.len() + k] == c.take(b.len() as int)[a.len() + k]);
        }
    }
    lemma_reported_concat(b.skip(a.len() as int), w1, c.skip(b.len() as int), w2);
    assert(c.take(a.len() as int) =~= a) by {
        assert forall|k: int| 0 <= k < a.len() implies c.take(a.len() as int)[k] == a[k] by {
            assert(c[k] == c.take(b.len() as int)[k]);
            assert(b[k] == b.take(a.len() as int)[k]);
        }
    }
}

/// Reports the diagnostics owed for the `p`-th revision parent of `o`.
fn check_parent(index: &ProjectIndex, o: &ObjectRecord, items: &[JsonValue], p: usize, findings: &mut Findings)
    requires
        index.wf(),
        old(findings).wf(),
        p < items@.len(),
    ensures
        final(findings).wf(),
        final(findings).shares_allowance(&*old(findings)),
        final(findings).retained().len() >= old(findings).retained().len(),
        final(findings).retained().take(old(findings).retained().len() as int) == old(findings).retained(),
        reported_from(final(findings).retained().skip(old(findings).retained().len() as int), parent_problems(index.entries(), *o, items@, p as int)),
{
    let ghost start = findings.retained();
    let ghost s = index.entries();
    proof {
        crate::findings::lemma_shares_allowance(&*findings, &*findings, &*findings);
        assert(findings.retained().skip(start.len() as int) =~= Seq::<Finding>::empty());
        assert(findings.retained().take(start.len() as int) =~= start);
        lemma_reported_empty(parent_problems(s, *o, items@, p as int));
    }
    let pid = match crate::index::item_target_of(&items[p], true) {
        Some(t) => t,
        None => return,
    };
    let parent = match index.get(pid) {
        Some(x) => x,
        None => return,
    };
    let other_lineage = !same_opt_str(&o.logical_id, &parent.logical_id);
    let mut first: Option<Finding> = None;
    let mut second: Option<Finding> = None;
    let ghost mut w1: Seq<(Seq<char>, Seq<char>, Seq<char>, ProjectPath, Seq<char>)> = Seq::empty();
    let ghost mut w2: Seq<(Seq<char>, Seq<char>, Seq<char>, ProjectPath, Seq<char>)> = Seq::empty();
    let ghost pn = p as nat;
    match (&o.object_type, &parent.object_type) {
        (ObjectType::Node(kind), ObjectType::Node(parent_kind)) => {
            proof {
                w1 = owed_if(other_lineage, lineage_owed(*o, "RP_E_NODE_LINEAGE_LOGICAL_ID_MISMATCH"@, "node_lineage"@,
                    "node parent belongs to a different logical lineage"@, pn));
                w2 = owed_if(kind@ != parent_kind@, lineage_owed(*o, "RP_E_NODE_LINEAGE_KIND_MISMATCH"@, "node_lineage"@,
                    "node parent has an incompatible kind"@, pn));
            }
            if other_lineage {
                first = Some(lineage_finding(o, "RP_E_NODE_LINEAGE_LOGICAL_ID_MISMATCH", "node_lineage",
                    "node parent belongs to a different logical lineage", p));
            }
            if !str_eq(kind.as_str(), parent_kind.as_str()) {
                second = Some(lineage_finding(o, "RP_E_NODE_LINEAGE_KIND_MISMATCH", "node_lineage",
                    "node parent has an incompatible kind", p));
            }
        },
        (ObjectType::Relation, ObjectType::Relation) => {
            let differs = !same_member(&o.value, &parent.value, "type");
            proof {
                w1 = owed_if(other_lineage, lineage_owed(*o, "RP_E_RELATION_LINEAGE_LOGICAL_ID_MISMATCH"@, "relation_lineage"@,
                    "relation parent belongs to a different logical lineage"@, pn));
                w2 = owed_if(differs, lineage_owed(*o, "RP_E_RELATION_LINEAGE_TYPE_MISMATCH"@, "relation_lineage"@,
                    "relation parent has a different relation type"@, pn));
            }
            if other_lineage {
                first = Some(lineage_finding(o, "RP_E_RELATION_LINEAGE_LOGICAL_ID_MISMATCH", "relation_lineage",
                    "relation parent belongs to a different logical lineage", p));
            }
            if differs {
                second = Some(lineage_finding(o, "RP_E_RELATION_LINEAGE_TYPE_MISMATCH", "relation_lineage",
                    "relation parent has a different relation type", p));
            }
        },
        (ObjectType::ThreadBinding, ObjectType::ThreadBinding) => {
            let differs = !same_member(&o.value, &parent.value, "thread_id") || !same_member(&o.value, &parent.value, "target");
            proof {
                w1 = owed_if(other_lineage, lineage_owed(*o, "RP_E_BINDING_LINEAGE_LOGICAL_ID_MISMATCH"@, "binding_lineage"@,
                    "binding parent belongs to a different logical lineage"@, pn));
                w2 = owed_if(differs, lineage_owed(*o, "RP_E_BINDING_LINEAGE_CONTEXT_MISMATCH"@, "binding_lineage"@,
                    "binding parent has a different thread or exact target context"@, pn));
            }
            if other_lineage {
                first = Some(lineage_finding(o, "RP_E_BINDING_LINEAGE_LOGICAL_ID_MISMATCH", "binding_lineage",
                    "binding parent belongs to a different logical lineage", p));
            }
            if differs {
                second = Some(lineage_finding(o, "RP_E_BINDING_LINEAGE_CONTEXT_MISMATCH", "binding_lineage",
                    "binding parent has a different thread or exact target context", p));
            }
        },
        _ => {},
    }
    proof {
        assert(parent_problems(s, *o, items@, p as int) == w1 + w2);
    }
    let ghost a = findings.retained();
    report_opt(findings, first, Ghost(w1));
    let ghost b = findings.retained();
    let ghost f1 = *findings;
    report_opt(findings, second, Ghost(w2));
    proof {
        lemma_reported_steps(a, b, findings.retained(), w1, w2);
        crate::findings::lemma_shares_allowance(&*findings, &f1, &*old(findings));
    }
}

/// Reporting from a prefix of what is owed is reporting from all of it.
pub proof fn lemma_reported_prefix(
    made: Seq<Finding>,
    owed: Seq<(Seq<char>, Seq<char>, Seq<char>, ProjectPath, Seq<char>)>,
    all: Seq<(Seq<char>, Seq<char>, Seq<char>, ProjectPath, Seq<char>)>,
)
    requires
        reported_from(made, owed),
        owed.is_prefix_of(all),
    ensures
        reported_from(made, all),
{
    lemma_reported_extend(made, owed, all.skip(owed.len() as int));
    assert(owed + all.skip(owed.len() as int) =~= all);
}

proof fn lemma_object_lineage_prefix(s: Seq<ObjectRecord>, o: ObjectRecord, p: int, m: int)
    requires
        0 <= p <= m,
    ensures
        object_lineage(s, o, p).is_prefix_of(object_lineage(s, o, m)),
    decreases m - p,
{
    if p < m {
        lemma_object_lineage_prefix(s, o, p, m - 1);
        assert(object_lineage(s, o, m - 1).is_prefix_of(object_lineage(s, o, m)));
    }
}

proof fn lemma_lineage_prefix(s: Seq<ObjectRecord>, k: int, n: int)
    requires
        0 <= k <= n,
    ensures
        lineage_problems(s, k).is_prefix_of(lineage_problems(s, n)),
    decreases n - k,
{
    if k < n {
        lemma_lineage_prefix(s, k, n - 1);
        assert(lineage_problems(s, n - 1).is_prefix_of(lineage_problems(s, n)));
    }
}

/// The revision parents an object lists, or none.
fn parent_items(o: &ObjectRecord) -> (r: &[JsonValue])
    ensures
        r@ == parents_of(*o),
{
    match o.value.at_pointer("/revision/parents") {
        Some(v) => match v.as_array() {
            Some(items) => items.as_slice(),
            None => &[],
        },
        None => &[],
    }
}

/// Reports, object by object and parent by parent, every revision parent that
/// belongs to another lineage or disagrees on kind, relation type or binding context,
/// while the run is neither stopped nor out of allowance.
pub fn validate_lineages(index: &ProjectIndex, findings: &mut Findings)
    requires
        index.wf(),
        old(findings).wf(),
    ensures
        final(findings).wf(),
        final(findings).shares_allowance(&*old(findings)),
        old(findings).retained().is_prefix_of(final(findings).retained()),
        reported_from(
            final(findings).retained().skip(old(findings).retained().len() as int),
            lineage_problems(index.entries(), index.entries().len() as int),
        ),
{
    let ghost base = findings.retained();
    let ghost s = index.entries();
    let ghost n = s.len() as int;
    proof {
        crate::findings::lemma_shares_allowance(&*findings, &*findings, &*findings);
        assert(findings.retained().skip(base.len() as int) =~= Seq::<Finding>::empty());
        lemma_reported_empty(lineage_problems(s, n));
        assert(base.is_prefix_of(findings.retained()));
    }
    if findings.cancelled() {
        return;
    }
    let objects = index.objects();
    let mut k: usize = 0;
    proof {
        lemma_reported_empty(lineage_problems(s, 0));
    }
    while k < objects.len()
        invariant
            index.wf(),
            s == index.entries(),
            objects@ == s,
            n == s.len(),
            k <= n,
            findings.wf(),
            findings.shares_allowance(&*old(findings)),
            base == old(findings).retained(),
            base.is_prefix_of(findings.retained()),
            reported_from(findings.retained().skip(base.len() as int), lineage_problems(s, k as int)),
        decreases n - k,
    {
        if findings.cancelled() {
            break;
        }
        let o = &objects[k];
        let items = parent_items(o);
        let mut p: usize = 0;
        proof {
            assert(lineage_problems(s, k as int) + object_lineage(s, *o, 0) =~= lineage_problems(s, k as int));
        }
        while p < items.len()
            invariant
                index.wf(),
                s == index.entries(),
                objects@ == s,
                n == s.len(),
                k < n,
                *o == s[k as int],
                items@ == parents_of(*o),
                p <= items@.len(),
                findings.wf(),
                findings.shares_allowance(&*old(findings)),
                base == old(findings).retained(),
                base.is_prefix_of(findings.retained()),
                reported_from(findings.retained().skip(base.len() as int), lineage_problems(s, k as int) + object_lineage(s, *o, p as int)),
            decreases items@.len() - p,
        {
            if findings.cancelled() {
                break;
            }
            let ghost before = findings.retained();
            let ghost prior = *findings;
            check_parent(index, o, items, p, findings);
            proof {
                crate::findings::lemma_shares_allowance(&*findings, &prior, &*old(findings));
                assert(before.take(base.len() as int) =~= base);
                assert(findings.retained().take(before.len() as int) == before);
                lemma_reported_steps(base, before, findings.retained(), lineage_problems(s, k as int) + object_lineage(s, *o, p as int), parent_problems(s, *o, items@, p as int));
                assert((lineage_problems(s, k as int) + object_lineage(s, *o, p as int)) + parent_problems(s, *o, items@, p as int)
                    =~= lineage_problems(s, k as int) + object_lineage(s, *o, p + 1));
                assert(findings.retained().take(base.len() as int) =~= base);
            }
            p = p + 1;
        }
        proof {
            lemma_object_lineage_prefix(s, *o, p as int, items@.len() as int);
            let a = lineage_problems(s, k as int);
            assert((a + object_lineage(s, *o, p as int)).is_prefix_of(a + object_lineage(s, *o, items@.len() as int))) by {
                assert((a + object_lineage(s, *o, items@.len() as int)).subrange(0, (a + object_lineage(s, *o, p as int)).len() as int)
                    =~= a + object_lineage(s, *o, p as int));
            }
            lemma_reported_prefix(findings.retained().skip(base.len() as int), a + object_lineage(s, *o, p as int), lineage_problems(s, k + 1));
        }
        k = k + 1;
    }
    proof {
        lemma_lineage_prefix(s, k as int, n);
        lemma_reported_prefix(findings.retained().skip(base.len() as int), lineage_problems(s, k as int), lineage_problems(s, n));
    }
}

/// The kind incompatibility owed for a relation revision, if any.
pub open spec fn relation_problem(s: Seq<ObjectRecord>, r: ObjectRecord)
    -> Seq<(Seq<char>, Seq<char>, Seq<char>, ProjectPath, Seq<char>)> {
    if !(r.object_type is Relation) {
        Seq::empty()
    } else {
        match (
            as_text(json_get(r.value, "type"@)),
            as_text(json_get(r.value, "from_revision"@)),
            as_text(json_get(r.value, "to_revision"@)),
        ) {
            (Some(t), Some(from_id), Some(to_id)) => match (object_with(s, from_id), object_with(s, to_id)) {
                (Some(from), Some(to)) => match (from.object_type, to.object_type) {
                    (ObjectType::Node(fk), ObjectType::Node(tk)) => owed_if(
                        !relation_compatible(t, fk@, tk@),
                        (
                            "RP_E_RELATION_KIND_INCOMPATIBLE"@,
                            "relation_compatibility"@,
                            "relation type "@ + t + " is incompatible with "@ + fk@ + " -> "@ + tk@,
                            r.source_file,
                            "/type"@,
                        ),
                    ),
                    _ => Seq::empty(),
                },
                _ => Seq::empty(),
            },
            _ => Seq::empty(),
        }
    }
}

/// The kind incompatibilities owed for the first `n` objects.
pub open spec fn relation_problems(s: Seq<ObjectRecord>, n: int)
    -> Seq<(Seq<char>, Seq<char>, Seq<char>, ProjectPath, Seq<char>)>
    decreases n,
{
    if n <= 0 {
        Seq::empty()
    } else {
        relation_problems(s, n - 1) + relation_problem(s, s[n - 1])
    }
}

proof fn lemma_relation_prefix(s: Seq<ObjectRecord>, k: int, n: int)
    requires
        0 <= k <= n,
    ensures
        relation_problems(s, k).is_prefix_of(relation_problems(s, n)),
    decreases n - k,
{
    if k < n {
        lemma_relation_prefix(s, k, n - 1);
        assert(relation_problems(s, n - 1).is_prefix_of(relation_problems(s, n)));
    }
}

fn text_member<'a>(v: &'a JsonValue, key: &str) -> (r: Option<&'a str>)
    ensures
        match r {
            Some(t) => as_text(json_get(*v, key@)) == Some(t@),
            None => as_text(json_get(*v, key@)) is None,
        },
{
    match v.get(key) {
        Some(x) => x.as_str(),
        None => None,
    }
}

/// The kind incompatibility of one relation revision, as a diagnostic.
fn relation_finding(index: &ProjectIndex, r: &ObjectRecord) -> (f: Option<Finding>)
    requires
        index.wf(),
    ensures
        f is None ==> relation_problem(index.entries(), *r).len() == 0,
        f matches Some(x) ==> relation_problem(index.entries(), *r).len() == 1 && is_owed(x, relation_problem(index.entries(), *r)[0]),
{
    match r.object_type {
        ObjectType::Relation => {},
        _ => return None,
    }
    let t = match text_member(&r.value, "type") { Some(t) => t, None => return None };
    let from_id = match text_member(&r.value, "from_revision") { Some(t) => t, None => return None };
    let to_id = match text_member(&r.value, "to_revision") { Some(t) => t, None => return None };
    let from = match index.get(from_id) { Some(x) => x, None => return None };
    let to = match index.get(to_id) { Some(x) => x, None => return None };
    match (&from.object_type, &to.object_type) {
        (ObjectType::Node(fk), ObjectType::Node(tk)) => {
            if relation_kinds_compatible(t, fk.as_str(), tk.as_str()) {
                None
            } else {
                let mut m = String::new();
                string_push_str(&mut m, "relation type ");
                string_push_str(&mut m, t);
                string_push_str(&mut m, " is incompatible with ");
                string_push_str(&mut m, fk.as_str());
                string_push_str(&mut m, " -> ");
                string_push_str(&mut m, tk.as_str());
                Some(Finding::new(
                    "RP_E_RELATION_KIND_INCOMPATIBLE",
                    "relation_compatibility",
                    Severity::Error,
                    m.as_str(),
                    Some(r.source_file.clone_path()),
                    "/type",
                ))
            }
        },
        _ => None,
    }
}

/// Reports every relation revision whose type does not admit the kinds of its
/// endpoints, in object order, while the run is neither stopped nor out of allowance.
pub fn validate_relation_compatibility(index: &ProjectIndex, findings: &mut Findings)
    requires
        index.wf(),
        old(findings).wf(),
    ensures
        final(findings).wf(),
        final(findings).shares_allowance(&*old(findings)),
        old(findings).retained().is_prefix_of(final(findings).retained()),
        reported_from(
            final(findings).retained().skip(old(findings).retained().len() as int),
            relation_problems(index.entries(), index.entries().len() as int),
        ),
{
    let ghost base = findings.retained();
    let ghost s = index.entries();
    let ghost n = s.len() as int;
    proof {
        crate::findings::lemma_shares_allowance(&*findings, &*findings, &*findings);
        assert(findings.retained().skip(base.len() as int) =~= Seq::<Finding>::empty());
        lemma_reported_empty(relation_problems(s, n));
        lemma_reported_empty(relation_problems(s, 0));
        assert(base.is_prefix_of(findings.retained()));
    }
    if findings.cancelled() {
        return;
    }
    let objects = index.objects();
    let mut k: usize = 0;
    while k < objects.len()
        invariant
            index.wf(),
            s == index.entries(),
            objects@ == s,
            n == s.len(),
            k <= n,
            findings.wf(),
            findings.shares_allowance(&*old(findings)),
            base == old(findings).retained(),
            base.is_prefix_of(findings.retained()),
            reported_from(findings.retained().skip(base.len() as int), relation_problems(s, k as int)),
        decreases n - k,
    {
        if findings.cancelled() {
            break;
        }
        let ghost before = findings.retained();
        let ghost prior = *findings;
        let f = relation_finding(index, &objects[k]);
        report_opt(findings, f, Ghost(relation_problem(s, s[k as int])));
        proof {
            crate::findings::lemma_shares_allowance(&*findings, &prior, &*old(findings));
            assert(before.take(base.len() as int) =~= base);
            lemma_reported_steps(base, before, findings.retained(), relation_problems(s, k as int), relation_problem(s, s[k as int]));
            assert(findings.retained().take(base.len() as int) =~= base);
        }
        k = k + 1;
    }
    proof {
        lemma_relation_prefix(s, k as int, n);
        lemma_reported_prefix(findings.retained().skip(base.len() as int), relation_problems(s, k as int), relation_problems(s, n));
    }
}

/// The independent lane of an assessment: what it assesses, in which scope, by whom
/// and with which review assurance.
pub open spec fn lane(v: JsonValue) -> Seq<Option<Seq<char>>> {
    seq![
        as_text(json_pointer(v, "/target/type"@)),
        as_text(json_pointer(v, "/target/id"@)),
        as_text(json_pointer(v, "/assessment_scope"@)),
        as_text(json_pointer(v, "/assessed_by/type"@)),
        as_text(json_pointer(v, "/assessed_by/id"@)),
        as_text(json_pointer(v, "/review_assurance"@)),
    ]
}

/// Two assessments share a lane exactly when they agree on the text of the target's
/// type and id, the assessment scope, the assessor's type and id and the review
/// assurance (each present in both with the same text, or absent from both).
pub proof fn law_lane_fields(a: JsonValue, b: JsonValue)
    ensures
        lane(a) == lane(b) <==> {
            &&& as_text(json_pointer(a, "/target/type"@)) == as_text(json_pointer(b, "/target/type"@))
            &&& as_text(json_pointer(a, "/target/id"@)) == as_text(json_pointer(b, "/target/id"@))
            &&& as_text(json_pointer(a, "/assessment_scope"@)) == as_text(json_pointer(b, "/assessment_scope"@))
            &&& as_text(json_pointer(a, "/assessed_by/type"@)) == as_text(json_pointer(b, "/assessed_by/type"@))
            &&& as_text(json_pointer(a, "/assessed_by/id"@)) == as_text(json_pointer(b, "/assessed_by/id"@))
            &&& as_text(json_pointer(a, "/review_assurance"@)) == as_text(json_pointer(b, "/review_assurance"@))
        },
{
    if lane(a) == lane(b) {
        assert(lane(a)[0] == lane(b)[0]);
        assert(lane(a)[1] == lane(b)[1]);
        assert(lane(a)[2] == lane(b)[2]);
        assert(lane(a)[3] == lane(b)[3]);
        assert(lane(a)[4] == lane(b)[4]);
        assert(lane(a)[5] == lane(b)[5]);
    } else {
        if as_text(json_pointer(a, "/target/type"@)) == as_text(json_pointer(b, "/target/type"@))
            && as_text(json_pointer(a, "/target/id"@)) == as_text(json_pointer(b, "/target/id"@))
            && as_text(json_pointer(a, "/assessment_scope"@)) == as_text(json_pointer(b, "/assessment_scope"@))
            && as_text(json_pointer(a, "/assessed_by/type"@)) == as_text(json_pointer(b, "/assessed_by/type"@))
            && as_text(json_pointer(a, "/assessed_by/id"@)) == as_text(json_pointer(b, "/assessed_by/id"@))
            && as_text(json_pointer(a, "/review_assurance"@)) == as_text(json_pointer(b, "/review_assurance"@)) {
            assert(lane(a) =~= lane(b));
        }
    }
}

/// The assessments an assessment supersedes, where it lists them.
pub open spec fn superseded_of(a: ObjectRecord) -> Seq<JsonValue> {
    if a.object_type is Assessment {
        match as_items(json_get(a.value, "supersedes_assessments"@)) {
            Some(items) => items,
            None => Seq::empty(),
        }
    } else {
        Seq::empty()
    }
}

/// The lane crossing owed for the `p`-th superseded assessment of `a`, if any.
pub open spec fn supersession_problem(s: Seq<ObjectRecord>, a: ObjectRecord, items: Seq<JsonValue>, p: int)
    -> Seq<(Seq<char>, Seq<char>, Seq<char>, ProjectPath, Seq<char>)> {
    match as_text(Some(items[p])) {
        None => Seq::empty(),
        Some(id) => match object_with(s, id) {
            None => Seq::empty(),
            Some(parent) => owed_if(
                lane(a.value) != lane(parent.value),
                (
                    "RP_E_ASSESSMENT_SUPERSESSION_LANE_MISMATCH"@,
                    "assessment_supersession"@,
                    "assessment supersession crosses an independent assessment lane"@,
                    a.source_file,
                    item_pointer("/supersedes_assessments"@, p as nat, false),
                ),
            ),
        },
    }
}

/// The lane crossings owed for the first `m` superseded assessments of `a`.
pub open spec fn object_supersession(s: Seq<ObjectRecord>, a: ObjectRecord, m: int)
    -> Seq<(Seq<char>, Seq<char>, Seq<char>, ProjectPath, Seq<char>)>
    decreases m,
{
    if m <= 0 {
        Seq::empty()
    } else {
        object_supersession(s, a, m - 1) + supersession_problem(s, a, superseded_of(a), m - 1)
    }
}

/// The lane crossings owed for the first `n` objects.
pub open spec fn supersession_problems(s: Seq<ObjectRecord>, n: int)
    -> Seq<(Seq<char>, Seq<char>, Seq<char>, ProjectPath, Seq<char>)>
    decreases n,
{
    if n <= 0 {
        Seq::empty()
    } else {
        supersession_problems(s, n - 1) + object_supersession(s, s[n - 1], superseded_of(s[n - 1]).len() as int)
    }
}

proof fn lemma_object_supersession_prefix(s: Seq<ObjectRecord>, a: ObjectRecord, p: int, m: int)
    requires
        0 <= p <= m,
    ensures
        object_supersession(s, a, p).is_prefix_of(object_supersession(s, a, m)),
    decreases m - p,
{
    if p < m {
        lemma_object_supersession_prefix(s, a, p, m - 1);
        assert(object_supersession(s, a, m - 1).is_prefix_of(object_supersession(s, a, m)));
    }
}

proof fn lemma_supersession_prefix(s: Seq<ObjectRecord>, k: int, n: int)
    requires
        0 <= k <= n,
    ensures
        supersession_problems(s, k).is_prefix_of(supersession_problems(s, n)),
    decreases n - k,
{
    if k < n {
        lemma_supersession_prefix(s, k, n - 1);
        assert(supersession_problems(s, n - 1).is_prefix_of(supersession_problems(s, n)));
    }
}

fn text_at<'a>(v: &'a JsonValue, pointer: &str) -> (r: Option<&'a str>)
    ensures
        match r {
            Some(t) => as_text(json_pointer(*v, pointer@)) == Some(t@),
            None => as_text(json_pointer(*v, pointer@)) is None,
        },
{
    match v.at_pointer(pointer) {
        Some(x) => x.as_str(),
        None => None,
    }
}

fn same_text_at(a: &JsonValue, b: &JsonValue, pointer: &str) -> (r: bool)
    ensures
        r == (as_text(json_pointer(*a, pointer@)) == as_text(json_pointer(*b, pointer@))),
{
    match (text_at(a, pointer), text_at(b, pointer)) {
        (None, None) => true,
        (Some(x), Some(y)) => str_eq(x, y),
        _ => false,
    }
}

/// Whether two assessments share their lane.
fn same_lane(a: &JsonValue, b: &JsonValue) -> (r: bool)
    ensures
        r == (lane(*a) == lane(*b)),
{
    let r = same_text_at(a, b, "/target/type") && same_text_at(a, b, "/target/id")
        && same_text_at(a, b, "/assessment_scope") && same_text_at(a, b, "/assessed_by/type")
        && same_text_at(a, b, "/assessed_by/id") && same_text_at(a, b, "/review_assurance");
    proof {
        if !r {
            if lane(*a) == lane(*b) {
                assert(lane(*a)[0] == lane(*b)[0]);
                assert(lane(*a)[1] == lane(*b)[1]);
                assert(lane(*a)[2] == lane(*b)[2]);
                assert(lane(*a)[3] == lane(*b)[3]);
                assert(lane(*a)[4] == lane(*b)[4]);
                assert(lane(*a)[5] == lane(*b)[5]);
            }
        } else {
            assert(lane(*a) =~= lane(*b));
        }
    }
    r
}

/// The assessments `a` lists as superseded, or none.
fn superseded_items(a: &ObjectRecord) -> (r: &[JsonValue])
    ensures
        r@ == superseded_of(*a),
{
    match a.object_type {
        ObjectType::Assessment => match a.value.get("supersedes_assessments") {
            Some(v) => match v.as_array() {
                Some(items) => items.as_slice(),
                None => &[],
            },
            None => &[],
        },
        _ => &[],
    }
}

fn supersession_finding(index: &ProjectIndex, a: &ObjectRecord, items: &[JsonValue], p: usize) -> (f: Option<Finding>)
    requires
        index.wf(),
        p < items@.len(),
    ensures
        f is None ==> supersession_problem(index.entries(), *a, items@, p as int).len() == 0,
        f matches Some(x) ==> supersession_problem(index.entries(), *a, items@, p as int).len() == 1
            && is_owed(x, supersession_problem(index.entries(), *a, items@, p as int)[0]),
{
    let id = match items[p].as_str() { Some(t) => t, None => return None };
    let parent = match index.get(id) { Some(x) => x, None => return None };
    if same_lane(&a.value, &parent.value) {
        return None;
    }
    let mut ptr = String::new();
    string_push_str(&mut ptr, "/supersedes_assessments");
    string_push_str(&mut ptr, "/");
    push_decimal(&mut ptr, p);
    Some(Finding::new(
        "RP_E_ASSESSMENT_SUPERSESSION_LANE_MISMATCH",
        "assessment_supersession",
        Severity::Error,
        "assessment supersession crosses an independent assessment lane",
        Some(a.source_file.clone_path()),
        ptr.as_str(),
    ))
}

/// Reports every superseded assessment that lies in another lane than the one that
/// supersedes it, in order, while the run is neither stopped nor out of allowance.
pub fn validate_assessments(index: &ProjectIndex, findings: &mut Findings)
    requires
        index.wf(),
        old(findings).wf(),
    ensures
        final(findings).wf(),
        final(findings).shares_allowance(&*old(findings)),
        old(findings).retained().is_prefix_of(final(findings).retained()),
        reported_from(
            final(findings).retained().skip(old(findings).retained().len() as int),
            supersession_problems(index.entries(), index.entries().len() as int),
        ),
{
    let ghost base = findings.retained();
    let ghost s = index.entries();
    let ghost n = s.len() as int;
    proof {
        crate::findings::lemma_shares_allowance(&*findings, &*findings, &*findings);
        assert(findings.retained().skip(base.len() as int) =~= Seq::<Finding>::empty());
        lemma_reported_empty(supersession_problems(s, n));
        lemma_reported_empty(supersession_problems(s, 0));
        assert(base.is_prefix_of(findings.retained()));
    }
    if findings.cancelled() {
        return;
    }
    let objects = index.objects();
    let mut k: usize = 0;
    while k < objects.len()
        invariant
            index.wf(),
            s == index.entries(),
            objects@ == s,
            n == s.len(),
            k <= n,
            findings.wf(),
            findings.shares_allowance(&*old(findings)),
            base == old(findings).retained(),
            base.is_prefix_of(findings.retained()),
            reported_from(findings.retained().skip(base.len() as int), supersession_problems(s, k as int)),
        decreases n - k,
    {
        let a = &objects[k];
        let items = superseded_items(a);
        let mut p: usize = 0;
        proof {
            assert(supersession_problems(s, k as int) + object_supersession(s, *a, 0) =~= supersession_problems(s, k as int));
        }
        while p < items.len()
            invariant
                index.wf(),
                s == index.entries(),
                objects@ == s,
                n == s.len(),
                k < n,
                *a == s[k as int],
                items@ == superseded_of(*a),
                p <= items@.len(),
                findings.wf(),
                findings.shares_allowance(&*old(findings)),
                base == old(findings).retained(),
                base.is_prefix_of(findings.retained()),
                reported_from(findings.retained().skip(base.len() as int), supersession_problems(s, k as int) + object_supersession(s, *a, p as int)),
            decreases items@.len() - p,
        {
            if findings.cancelled() {
                break;
            }
            let ghost before = findings.retained();
            let ghost prior = *findings;
            let f = supersession_finding(index, a, items, p);
            report_opt(findings, f, Ghost(supersession_problem(s, *a, items@, p as int)));
            proof {
                crate::findings::lemma_shares_allowance(&*findings, &prior, &*old(findings));
                assert(before.take(base.len() as int) =~= base);
                lemma_reported_steps(base, before, findings.retained(), supersession_problems(s, k as int) + object_supersession(s, *a, p as int), supersession_problem(s, *a, items@, p as int));
                assert((supersession_problems(s, k as int) + object_supersession(s, *a, p as int)) + supersession_problem(s, *a, items@, p as int)
                    =~= supersession_problems(s, k as int) + object_supersession(s, *a, p + 1));
                assert(findings.retained().take(base.len() as int) =~= base);
            }
            p = p + 1;
        }
        proof {
            lemma_object_supersession_prefix(s, *a, p as int, items@.len() as int);
            let x = supersession_problems(s, k as int);
            assert((x + object_supersession(s, *a, p as int)).is_prefix_of(x + object_supersession(s, *a, items@.len() as int))) by {
                assert((x + object_supersession(s, *a, items@.len() as int)).subrange(0, (x + object_supersession(s, *a, p as int)).len() as int)
                    =~= x + object_supersession(s, *a, p as int));
            }
            lemma_reported_prefix(findings.retained().skip(base.len() as int), x + object_supersession(s, *a, p as int), supersession_problems(s, k + 1));
        }
        k = k + 1;
    }
    proof {
        lemma_supersession_prefix(s, k as int, n);
        lemma_reported_prefix(findings.retained().skip(base.len() as int), supersession_problems(s, k as int), supersession_problems(s, n));
    }
}

proof fn lemma_prefix_trans(a: Seq<Finding>, b: Seq<Finding>, c: Seq<Finding>)
    requires
        a.is_prefix_of(b),
        b.is_prefix_of(c),
    ensures
        a.is_prefix_of(c),
{
    assert forall|k: int| 0 <= k < a.len() implies a[k] == c[k] by {
        assert(a[k] == b.subrange(0, a.len() as int)[k]);
        assert(b[k] == c.subrange(0, b.len() as int)[k]);
    }
    assert(a =~= c.subrange(0, a.len() as int));
}

/// The code, family and message of a cycle in the graph of `class`.
pub open spec fn cycle_diagnostic(class: CycleClass) -> (Seq<char>, Seq<char>, Seq<char>) {
    match class {
        CycleClass::Node => ("RP_E_REVISION_DAG_CYCLE"@, "revision_dag_cycle"@, "node revision lineage contains a cycle"@),
        CycleClass::Relation => ("RP_E_RELATION_DAG_CYCLE"@, "relation_dag_cycle"@, "relation revision lineage contains a cycle"@),
        CycleClass::Binding => ("RP_E_BINDING_DAG_CYCLE"@, "binding_dag_cycle"@, "thread binding lineage contains a cycle"@),
        CycleClass::Thread => ("RP_E_THREAD_DAG_CYCLE"@, "thread_dag_cycle"@, "research thread hierarchy contains a cycle"@),
        CycleClass::Assessment => ("RP_E_ASSESSMENT_SUPERSESSION_CYCLE"@, "assessment_supersession"@, "assessment supersession contains a cycle"@),
    }
}

/// `f` reports a cycle of the graph of `class`, in the file of an object on it.
pub open spec fn reports_cycle(f: Finding, s: Seq<ObjectRecord>, class: CycleClass) -> bool {
    let (code, family, message) = cycle_diagnostic(class);
    &&& f.error_code@ == code
    &&& f.finding_family@ == family
    &&& f.severity == Severity::Error
    &&& f.message@ == sanitized(message)
    &&& f.json_pointer@ == Seq::<char>::empty()
    &&& exists|id: Seq<char>| #[trigger] on_cycle(s, class, id) && f.source_file == match object_with(s, id) {
        Some(o) => Some(o.source_file),
        None => None,
    }
}

/// `f` reports that a graph search went deeper than allowed.
pub open spec fn reports_depth(f: Finding) -> bool {
    &&& f.error_code@ == "RP_E_RESOURCE_TRAVERSAL_DEPTH_EXCEEDED"@
    &&& f.finding_family@ == "resource_limit"@
    &&& f.severity == Severity::Error
    &&& f.message@ == sanitized("graph traversal depth limit exceeded"@)
    &&& f.source_file is None
    &&& f.json_pointer@ == Seq::<char>::empty()
}

/// The diagnostic of a cycle through `id` in the graph of `class`.
fn cycle_finding(index: &ProjectIndex, class: CycleClass, id: &str) -> (f: Finding)
    requires
        index.wf(),
        on_cycle(index.entries(), class, id@),
    ensures
        reports_cycle(f, index.entries(), class),
{
    let (code, family, message) = match class {
        CycleClass::Node => ("RP_E_REVISION_DAG_CYCLE", "revision_dag_cycle", "node revision lineage contains a cycle"),
        CycleClass::Relation => ("RP_E_RELATION_DAG_CYCLE", "relation_dag_cycle", "relation revision lineage contains a cycle"),
        CycleClass::Binding => ("RP_E_BINDING_DAG_CYCLE", "binding_dag_cycle", "thread binding lineage contains a cycle"),
        CycleClass::Thread => ("RP_E_THREAD_DAG_CYCLE", "thread_dag_cycle", "research thread hierarchy contains a cycle"),
        CycleClass::Assessment => ("RP_E_ASSESSMENT_SUPERSESSION_CYCLE", "assessment_supersession", "assessment supersession contains a cycle"),
    };
    let source_file = match index.get(id) {
        Some(o) => Some(o.source_file.clone_path()),
        None => None,
    };
    proof {
        reveal_strlit("");
        assert((code@, family@, message@) == cycle_diagnostic(class));
        assert(source_file == match object_with(index.entries(), id@) {
            Some(o) => Some(o.source_file),
            None => None,
        });
    }
    let f = Finding::new(code, family, Severity::Error, message, source_file, "");
    proof {
        let d = cycle_diagnostic(class);
        assert(f.error_code@ == d.0);
        assert(f.finding_family@ == d.1);
        assert(f.message@ == sanitized(d.2));
        assert(f.json_pointer@ == Seq::<char>::empty());
        assert(on_cycle(index.entries(), class, id@) && f.source_file == match object_with(index.entries(), id@) {
            Some(o) => Some(o.source_file),
            None => None,
        });
    }
    f
}

/// Searches each graph in turn (node, relation and binding lineages, the thread
/// hierarchy, assessment supersession) and reports a cycle of each; stops at the
/// first search that is stopped or goes deeper than `limits.traversal_depth`, the
/// latter reported as a resource limit.
pub fn validate_cycles(index: &ProjectIndex, limits: ProjectLimits, findings: &mut Findings)
    requires
        index.wf(),
        old(findings).wf(),
    ensures
        final(findings).wf(),
        final(findings).shares_allowance(&*old(findings)),
        old(findings).retained().is_prefix_of(final(findings).retained()),
        forall|k: int| old(findings).retained().len() <= k < final(findings).retained().len() ==> {
            ||| reports_depth(#[trigger] final(findings).retained()[k])
            ||| exists|class: CycleClass| reports_cycle(final(findings).retained()[k], index.entries(), class)
        },
{
    let ghost base = findings.retained();
    let ghost s = index.entries();
    proof {
        crate::findings::lemma_shares_allowance(&*findings, &*findings, &*findings);
        assert(base.is_prefix_of(findings.retained()));
    }
    if findings.cancelled() {
        return;
    }
    let classes = [CycleClass::Node, CycleClass::Relation, CycleClass::Binding, CycleClass::Thread, CycleClass::Assessment];
    let mut c: usize = 0;
    while c < 5
        invariant
            index.wf(),
            s == index.entries(),
            findings.wf(),
            findings.shares_allowance(&*old(findings)),
            base == old(findings).retained(),
            base.is_prefix_of(findings.retained()),
            forall|k: int| base.len() <= k < findings.retained().len() ==> {
                ||| reports_depth(#[trigger] findings.retained()[k])
                ||| exists|class: CycleClass| reports_cycle(findings.retained()[k], s, class)
            },
        decreases 5 - c,
    {
        if findings.cancelled() {
            break;
        }
        let class = classes[c];
        let ghost before = findings.retained();
        let ghost prior = *findings;
        match find_cycle(index, class, limits.traversal_depth) {
            CycleSearch::Stopped => return,
            CycleSearch::Acyclic => {},
            CycleSearch::Cycle(id) => {
                let f = cycle_finding(index, class, id.as_str());
                let ghost ff = f;
                report(findings, f);
                proof {
                    crate::findings::lemma_shares_allowance(&*findings, &prior, &*old(findings));
                    assert forall|k: int| base.len() <= k < findings.retained().len() implies {
                        ||| reports_depth(#[trigger] findings.retained()[k])
                        ||| exists|class: CycleClass| reports_cycle(findings.retained()[k], s, class)
                    } by {
                        if k < before.len() {
                            assert(findings.retained()[k] == before[k]);
                        } else {
                            assert(findings.retained()[k] == ff);
                            assert(reports_cycle(ff, s, class));
                        }
                    }
                    assert(findings.retained().take(base.len() as int) =~= base) by {
                        assert forall|k: int| 0 <= k < base.len() implies findings.retained()[k] == base[k] by {
                            assert(before[k] == base[k]);
                        }
                    }
                }
            },
            CycleSearch::DepthExceeded => {
                let f = resource_finding(
                    "RP_E_RESOURCE_TRAVERSAL_DEPTH_EXCEEDED",
                    "graph traversal depth limit exceeded",
                    None,
                );
                let ghost ff = f;
                proof {
                    reveal_strlit("RP_E_RESOURCE_TRAVERSAL_DEPTH_EXCEEDED");
                }
                report(findings, f);
                proof {
                    crate::findings::lemma_shares_allowance(&*findings, &prior, &*old(findings));
                    assert forall|k: int| base.len() <= k < findings.retained().len() implies {
                        ||| reports_depth(#[trigger] findings.retained()[k])
                        ||| exists|class: CycleClass| reports_cycle(findings.retained()[k], s, class)
                    } by {
                        if k < before.len() {
                            assert(findings.retained()[k] == before[k]);
                        } else {
                            assert(findings.retained()[k] == ff);
                        }
                    }
                    assert(findings.retained().take(base.len() as int) =~= base) by {
                        assert forall|k: int| 0 <= k < base.len() implies findings.retained()[k] == base[k] by {
                            assert(before[k] == base[k]);
                        }
                    }
                }
                return;
            },
        }
        c = c + 1;
    }
}

/// `f` is a diagnostic that the cross-object checks owe for the objects `s`.
pub open spec fn semantic_justified(f: Finding, s: Seq<ObjectRecord>) -> bool {
    ||| owes(lineage_problems(s, s.len() as int), f)
    ||| owes(relation_problems(s, s.len() as int), f)
    ||| owes(supersession_problems(s, s.len() as int), f)
    ||| exists|class: CycleClass| reports_cycle(f, s, class)
    ||| reports_depth(f)
}

/// Every diagnostic added after position `from` is owed by the cross-object checks.
pub open spec fn all_semantic(made: Seq<Finding>, from: int, s: Seq<ObjectRecord>) -> bool {
    forall|k: int| from <= k < made.len() ==> semantic_justified(#[trigger] made[k], s)
}

proof fn lemma_all_semantic_step(
    a: Seq<Finding>,
    b: Seq<Finding>,
    s: Seq<ObjectRecord>,
    owed: Seq<(Seq<char>, Seq<char>, Seq<char>, ProjectPath, Seq<char>)>,
    from: int,
)
    requires
        0 <= from <= a.len(),
        a.is_prefix_of(b),
        all_semantic(a, from, s),
        reported_from(b.skip(a.len() as int), owed),
        owed == lineage_problems(s, s.len() as int) || owed == relation_problems(s, s.len() as int)
            || owed == supersession_problems(s, s.len() as int),
    ensures
        all_semantic(b, from, s),
{
    lemma_reported_members(b.skip(a.len() as int), owed);
    assert forall|k: int| from <= k < b.len() implies semantic_justified(#[trigger] b[k], s) by {
        if k < a.len() {
            assert(b[k] == a[k]);
        } else {
            assert(b[k] == b.skip(a.len() as int)[k - a.len()]);
            assert(owes(owed, b.skip(a.len() as int)[k - a.len()]));
        }
    }
}

/// The cross-object checks of an indexed project, in order: lineages, relation
/// kinds, assessment supersession, cycles. Every diagnostic added is owed by one of them.
pub fn validate_semantics(index: &ProjectIndex, limits: ProjectLimits, findings: &mut Findings)
    requires
        index.wf(),
        old(findings).wf(),
    ensures
        final(findings).wf(),
        final(findings).shares_allowance(&*old(findings)),
        old(findings).retained().is_prefix_of(final(findings).retained()),
        all_semantic(final(findings).retained(), old(findings).retained().len() as int, index.entries()),
{
    let ghost s = index.entries();
    let ghost from = findings.retained().len() as int;
    proof {
        crate::findings::lemma_shares_allowance(&*findings, &*findings, &*findings);
        assert(findings.retained().is_prefix_of(findings.retained()));
    }
    if findings.cancelled() {
        return;
    }
    let ghost f0 = *findings;
    validate_lineages(index, findings);
    let ghost f1 = *findings;
    validate_relation_compatibility(index, findings);
    let ghost f2 = *findings;
    validate_assessments(index, findings);
    let ghost f3 = *findings;
    validate_cycles(index, limits, findings);
    proof {
        crate::findings::lemma_shares_allowance(&f2, &f1, &f0);
        crate::findings::lemma_shares_allowance(&f3, &f2, &f0);
        crate::findings::lemma_shares_allowance(&*findings, &f3, &f0);
        lemma_prefix_trans(f0.retained(), f1.retained(), f2.retained());
        lemma_prefix_trans(f0.retained(), f2.retained(), f3.retained());
        lemma_prefix_trans(f0.retained(), f3.retained(), findings.retained());
        assert(all_semantic(f0.retained(), from, s));
        lemma_all_semantic_step(f0.retained(), f1.retained(), s, lineage_problems(s, s.len() as int), from);
        lemma_all_semantic_step(f1.retained(), f2.retained(), s, relation_problems(s, s.len() as int), from);
        lemma_all_semantic_step(f2.retained(), f3.retained(), s, supersession_problems(s, s.len() as int), from);
        assert forall|k: int| from <= k < findings.retained().len() implies semantic_justified(#[trigger] findings.retained()[k], s) by {
            if k < f3.retained().len() {
                assert(findings.retained()[k] == f3.retained()[k]);
            }
        }
    }
}

} // verus!
