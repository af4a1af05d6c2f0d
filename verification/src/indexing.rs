//! Indexing a project's canonical objects and checking them against each other.
use vstd::prelude::*;

use crate::finding::{sanitized, Finding, ProjectPath, Severity};
use crate::findings::Findings;
use crate::index::{declared_references, edge_view, object_with, position_of, lemma_position_of, collect_references, ObjectRecord, ProjectIndex};
use crate::json::{as_text, json_get};
use crate::model::{object_label, schema_kind, ObjectType, ReferenceEdge};
use crate::project::{is_filename_slug, is_slug, layout_accepts, layout_label, resource_finding, ExpectedLayout, ProjectLimits};
use crate::report_json::JsonValue;
use crate::semantics::{problem_edges, lemma_problem_edges_members, is_owed, owes, reports_reference, reported_from, reported_in_order, validate_references, validate_semantics, all_semantic, semantic_justified, report, report_opt, lemma_reported_steps, lemma_reported_members, lemma_reported_empty, owed_if};
use crate::text::{ends_with, has_suffix, split_on, split_str, str_chars, str_eq, string_push, string_push_str};

verus! {

/// The start of the last `--` in `s`.
pub open spec fn last_double_hyphen(s: Seq<char>) -> Option<int>
    decreases s.len(),
{
    if s.len() < 2 {
        None
    } else if s[s.len() - 2] == '-' && s[s.len() - 1] == '-' {
        Some(s.len() - 2)
    } else {
        last_double_hyphen(s.drop_last())
    }
}

/// The file of `path` is `<slug>--<id>.yaml`, split at the last `--`, with a valid slug.
pub open spec fn filename_matches(path: Seq<char>, id: Seq<char>) -> bool {
    let name = split_on(path, '/').last();
    &&& has_suffix(name, ".yaml"@)
    &&& {
        let stem = name.subrange(0, name.len() - 5);
        match last_double_hyphen(stem) {
            Some(p) => stem.subrange(p + 2, stem.len() as int) == id && is_slug(stem.subrange(0, p)),
            None => false,
        }
    }
}

fn chars_text(c: &Vec<char>, from: usize, to: usize) -> (t: String)
    requires
        from <= to <= c@.len(),
    ensures
        t@ == c@.subrange(from as int, to as int),
{
    let mut t = String::new();
    let mut i = from;
    proof {
        assert(t@ =~= c@.subrange(from as int, from as int));
    }
    while i < to
        invariant
            from <= i <= to <= c@.len(),
            t@ == c@.subrange(from as int, i as int),
        decreases to - i,
    {
        string_push(&mut t, c[i]);
        assert(t@ =~= c@.subrange(from as int, i + 1));
        i = i + 1;
    }
    t
}

/// Whether a canonical file's name carries the object's id after its slug.
pub fn filename_matches_id(path: &ProjectPath, id: &str) -> (r: bool)
    ensures
        r == filename_matches(path@, id@),
{
    let parts = split_str(path.as_str(), '/');
    proof {
        crate::text::lemma_split_nonempty(path@, '/');
        reveal_strlit(".yaml");
    }
    let name = parts[parts.len() - 1].as_str();
    if !ends_with(name, ".yaml") {
        return false;
    }
    let c = str_chars(name);
    let stem_len = c.len() - 5;
    let ghost stem = c@.subrange(0, stem_len as int);
    let mut j = stem_len;
    proof {
        assert(stem.subrange(0, j as int) =~= stem);
    }
    while j >= 2 && !(c[j - 2] == '-' && c[j - 1] == '-')
        invariant
            c@ == name@,
            stem_len == c@.len() - 5,
            stem == c@.subrange(0, stem_len as int),
            j <= stem_len,
            last_double_hyphen(stem) == last_double_hyphen(stem.subrange(0, j as int)),
        decreases j,
    {
        proof {
            let t = stem.subrange(0, j as int);
            assert(t.drop_last() =~= stem.subrange(0, j - 1));
        }
        j = j - 1;
    }
    if j < 2 {
        return false;
    }
    let p = j - 2;
    proof {
        let t = stem.subrange(0, j as int);
        assert(last_double_hyphen(t) == Some(p as int));
    }
    let suffix = chars_text(&c, p + 2, stem_len);
    let slug = chars_text(&c, 0, p);
    proof {
        assert(suffix@ == stem.subrange(p + 2, stem.len() as int));
        assert(slug@ == stem.subrange(0, p as int));
    }
    str_eq(suffix.as_str(), id) && is_filename_slug(slug.as_str())
}

/// The object kind a value's schema names, with its kind for a node revision.
pub open spec fn type_of_value(v: JsonValue, t: ObjectType) -> bool {
    match as_text(json_get(v, "schema"@)) {
        None => false,
        Some(schema) => if schema == "rp/node-revision/v1"@ {
            match as_text(json_get(v, "kind"@)) {
                Some(k) => t matches ObjectType::Node(n) && n@ == k,
                None => false,
            }
        } else {
            schema_kind(schema) == Some(t)
        },
    }
}

/// The object kind a value's schema names.
pub fn object_type_of(v: &JsonValue) -> (r: Option<ObjectType>)
    ensures
        match r {
            Some(t) => type_of_value(*v, t),
            None => forall|t: ObjectType| !type_of_value(*v, t),
        },
{
    proof {
        reveal_strlit("rp/node-revision/v1");
    }
    let schema = match v.get("schema") {
        Some(x) => match x.as_str() {
            Some(t) => t,
            None => return None,
        },
        None => return None,
    };
    let kind = match v.get("kind") {
        Some(x) => x.as_str(),
        None => None,
    };
    let r = ObjectType::from_schema(schema, kind);
    proof {
        if r is None && schema@ != "rp/node-revision/v1"@ {
            assert forall|t: ObjectType| !type_of_value(*v, t) by {}
        }
    }
    r
}

/// A canonical file as read: where it stands, what its place demands, its value.
pub struct ParsedObject {
    pub path: ProjectPath,
    pub expected: ExpectedLayout,
    pub value: JsonValue,
}

/// The id of a canonical object.
pub open spec fn id_of(o: ParsedObject) -> Seq<char> {
    as_text(json_get(o.value, "id"@))->0
}

/// A canonical object carries a text id and a known schema.
pub open spec fn canonical_object(o: ParsedObject) -> bool {
    &&& as_text(json_get(o.value, "id"@)) is Some
    &&& exists|t: ObjectType| type_of_value(o.value, t)
}

/// What an object's place, file name and state owe, in this order.
pub open spec fn identity_owed(o: ParsedObject, t: ObjectType) -> Seq<(Seq<char>, Seq<char>, Seq<char>, ProjectPath, Seq<char>)> {
    crate::semantics::owed_if(!layout_accepts(o.expected, t), (
        "RP_E_REFERENCE_TYPE_MISMATCH"@,
        "reference_integrity"@,
        "canonical layout expects "@ + layout_label(o.expected) + ", but object is "@ + object_label(t),
        o.path,
        "/schema"@,
    )) + crate::semantics::owed_if(!(o.expected is Project) && !filename_matches(o.path@, id_of(o)), (
        "RP_E_OBJECT_FILENAME_ID_MISMATCH"@,
        "object_identity"@,
        "canonical filename suffix does not match the object ID"@,
        o.path,
        "/id"@,
    )) + crate::semantics::owed_if(as_text(json_get(o.value, "record_state"@)) == Some("draft"@), (
        "RP_E_CANONICAL_DRAFT_FORBIDDEN"@,
        "canonical_state"@,
        "draft records are forbidden in the canonical .research tree"@,
        o.path,
        "/record_state"@,
    ))
}

/// The diagnostic of an object whose id an earlier file already holds.
pub open spec fn duplicate_owed(o: ParsedObject) -> (Seq<char>, Seq<char>, Seq<char>, ProjectPath, Seq<char>) {
    (
        "RP_E_OBJECT_DUPLICATE_ID"@,
        "object_identity"@,
        "object ID "@ + id_of(o) + " appears in more than one canonical file"@,
        o.path,
        "/id"@,
    )
}

/// `f` reports that the graph has more objects or references than allowed.
pub open spec fn reports_graph_limit(f: Finding) -> bool {
    &&& f.finding_family@ == "resource_limit"@
    &&& f.severity == Severity::Error
    &&& f.source_file is None
    &&& f.json_pointer@ == Seq::<char>::empty()
    &&& {
        ||| f.error_code@ == "RP_E_RESOURCE_GRAPH_NODES_EXCEEDED"@ && f.message@ == sanitized("graph node limit exceeded"@)
        ||| f.error_code@ == "RP_E_RESOURCE_GRAPH_EDGES_EXCEEDED"@ && f.message@ == sanitized("graph edge limit exceeded"@)
    }
}

/// Some object of `s` declares the reference `e`.
pub open spec fn declared_somewhere(s: Seq<ObjectRecord>, e: ReferenceEdge) -> bool {
    exists|q: int| 0 <= q < s.len() && #[trigger] declared_references(s[q]).contains(edge_view(e))
}

/// `f` is a diagnostic that indexing `objects` into `s` owes.
pub open spec fn index_justified(f: Finding, objects: Seq<ParsedObject>, s: Seq<ObjectRecord>) -> bool {
    ||| exists|i: int, t: ObjectType| 0 <= i < objects.len() && type_of_value(objects[i].value, t) && #[trigger] owes(identity_owed(objects[i], t), f)
    ||| exists|i: int| 0 <= i < objects.len() && #[trigger] is_owed(f, duplicate_owed(objects[i]))
    ||| reports_graph_limit(f)
    ||| exists|e: ReferenceEdge| #[trigger] reports_reference(f, s, e) && declared_somewhere(s, e)
    ||| semantic_justified(f, s)
}

/// The position of the first of the first `m` objects with id `id`.
pub open spec fn first_with(objects: Seq<ParsedObject>, m: int, id: Seq<char>) -> Option<int>
    decreases m,
{
    if m <= 0 {
        None
    } else {
        match first_with(objects, m - 1, id) {
            Some(i) => Some(i),
            None => if id_of(objects[m - 1]) == id { Some(m - 1) } else { None },
        }
    }
}

/// The record was made from the object: same id, lineage, kind, file and value.
pub open spec fn record_from(r: ObjectRecord, o: ParsedObject) -> bool {
    &&& r.id@ == id_of(o)
    &&& match r.logical_id {
        Some(l) => as_text(json_get(o.value, "logical_id"@)) == Some(l@),
        None => as_text(json_get(o.value, "logical_id"@)) is None,
    }
    &&& type_of_value(o.value, r.object_type)
    &&& r.source_file == o.path
    &&& r.value == o.value
}

/// The objects in reverse order.
fn reverse_objects(objects: Vec<ParsedObject>) -> (r: Vec<ParsedObject>)
    ensures
        r@ == objects@.reverse(),
{
    let ghost all = objects@;
    let mut rest = objects;
    let mut out: Vec<ParsedObject> = Vec::new();
    while rest.len() > 0
        invariant
            rest@ + out@.reverse() == all,
        decreases rest.len(),
    {
        let ghost before = rest@;
        let x = rest.pop().unwrap();
        let ghost o = out@;
        out.push(x);
        proof {
            assert(out@.reverse() =~= seq![x] + o.reverse());
            assert(before =~= rest@.push(x));
            assert(rest@ + out@.reverse() =~= before + o.reverse());
        }
    }
    proof {
        assert(rest@ =~= Seq::<ParsedObject>::empty());
        assert(out@.reverse() =~= all);
        assert(out@ =~= out@.reverse().reverse());
    }
    out
}

/// A diagnostic at `path`, an error.
fn located(code: &'static str, family: &'static str, message: &str, path: &ProjectPath, pointer: &'static str) -> (f: Finding)
    ensures
        f.error_code == code,
        f.finding_family == family,
        f.severity == Severity::Error,
        f.message@ == sanitized(message@),
        f.source_file == Some(*path),
        f.json_pointer@ == pointer@,
{
    Finding::new(code, family, Severity::Error, message, Some(path.clone_path()), pointer)
}

/// Reports what an object's place, file name and state owe.
fn report_identity(o: &ParsedObject, t: &ObjectType, id: &str, findings: &mut Findings)
    requires
        old(findings).wf(),
        type_of_value(o.value, *t),
        as_text(json_get(o.value, "id"@)) == Some(id@),
    ensures
        final(findings).wf(),
        final(findings).shares_allowance(&*old(findings)),
        old(findings).retained().is_prefix_of(final(findings).retained()),
        reported_from(final(findings).retained().skip(old(findings).retained().len() as int), identity_owed(*o, *t)),
{
    proof {
        reveal_strlit("draft");
    }
    let layout = if o.expected.accepts(t) {
        None
    } else {
        let mut m = String::new();
        string_push_str(&mut m, "canonical layout expects ");
        string_push_str(&mut m, o.expected.label());
        string_push_str(&mut m, ", but object is ");
        string_push_str(&mut m, t.label());
        Some(located("RP_E_REFERENCE_TYPE_MISMATCH", "reference_integrity", m.as_str(), &o.path, "/schema"))
    };
    let project = match o.expected {
        ExpectedLayout::Project => true,
        _ => false,
    };
    let name = if !project && !filename_matches_id(&o.path, id) {
        Some(located("RP_E_OBJECT_FILENAME_ID_MISMATCH", "object_identity",
            "canonical filename suffix does not match the object ID", &o.path, "/id"))
    } else {
        None
    };
    let draft_state = match o.value.get("record_state") {
        Some(v) => match v.as_str() {
            Some(st) => str_eq(st, "draft"),
            None => false,
        },
        None => false,
    };
    let draft = if draft_state {
        Some(located("RP_E_CANONICAL_DRAFT_FORBIDDEN", "canonical_state",
            "draft records are forbidden in the canonical .research tree", &o.path, "/record_state"))
    } else {
        None
    };
    let ghost w1 = owed_if(!layout_accepts(o.expected, *t), (
        "RP_E_REFERENCE_TYPE_MISMATCH"@,
        "reference_integrity"@,
        "canonical layout expects "@ + layout_label(o.expected) + ", but object is "@ + crate::model::object_label(*t),
        o.path,
        "/schema"@,
    ));
    let ghost w2 = owed_if(!(o.expected is Project) && !filename_matches(o.path@, id_of(*o)), (
        "RP_E_OBJECT_FILENAME_ID_MISMATCH"@,
        "object_identity"@,
        "canonical filename suffix does not match the object ID"@,
        o.path,
        "/id"@,
    ));
    let ghost w3 = owed_if(as_text(json_get(o.value, "record_state"@)) == Some("draft"@), (
        "RP_E_CANONICAL_DRAFT_FORBIDDEN"@,
        "canonical_state"@,
        "draft records are forbidden in the canonical .research tree"@,
        o.path,
        "/record_state"@,
    ));
    proof {
        assert(identity_owed(*o, *t) == w1 + w2 + w3);
    }
    let ghost a = findings.retained();
    report_opt(findings, layout, Ghost(w1));
    let ghost b = findings.retained();
    let ghost f1 = *findings;
    report_opt(findings, name, Ghost(w2));
    let ghost c = findings.retained();
    let ghost f2 = *findings;
    report_opt(findings, draft, Ghost(w3));
    proof {
        lemma_reported_steps(a, b, c, w1, w2);
        lemma_reported_steps(a, c, findings.retained(), w1 + w2, w3);
        crate::findings::lemma_shares_allowance(&f2, &f1, &*old(findings));
        crate::findings::lemma_shares_allowance(&*findings, &f2, &*old(findings));
        assert(findings.retained().subrange(0, a.len() as int) =~= findings.retained().take(a.len() as int));
    }
}

/// A diagnostic owed for an object's identity, whatever objects are indexed.
pub open spec fn identity_justified(f: Finding, objects: Seq<ParsedObject>) -> bool {
    ||| exists|i: int, t: ObjectType| 0 <= i < objects.len() && type_of_value(objects[i].value, t) && #[trigger] owes(identity_owed(objects[i], t), f)
    ||| exists|i: int| 0 <= i < objects.len() && #[trigger] is_owed(f, duplicate_owed(objects[i]))
}

/// What the first `m` objects put in an index: each id's first object, as a record.
pub open spec fn indexed_first(s: Seq<ObjectRecord>, objects: Seq<ParsedObject>, m: int) -> bool {
    &&& forall|id: Seq<char>| #[trigger] object_with(s, id) matches Some(r) ==> (first_with(objects, m, id) matches Some(i)
        && record_from(r, objects[i]))
    &&& forall|id: Seq<char>| #[trigger] first_with(objects, m, id) is Some ==> object_with(s, id) is Some
}

proof fn lemma_first_with_bound(objects: Seq<ParsedObject>, m: int, id: Seq<char>)
    ensures
        first_with(objects, m, id) matches Some(i) ==> 0 <= i < m && id_of(objects[i]) == id,
    decreases m,
{
    if m > 0 {
        lemma_first_with_bound(objects, m - 1, id);
    }
}

proof fn lemma_first_with_prefix(objects: Seq<ParsedObject>, k: int, n: int, id: Seq<char>)
    requires
        0 <= k <= n,
    ensures
        first_with(objects, k, id) matches Some(i) ==> first_with(objects, n, id) == Some(i),
    decreases n - k,
{
    if k < n {
        lemma_first_with_prefix(objects, k, n - 1, id);
    }
}

proof fn lemma_identity_to_index(made: Seq<Finding>, from: int, objects: Seq<ParsedObject>, s: Seq<ObjectRecord>)
    requires
        forall|j: int| from <= j < made.len() ==> identity_justified(#[trigger] made[j], objects),
    ensures
        forall|j: int| from <= j < made.len() ==> index_justified(#[trigger] made[j], objects, s),
{
    assert forall|j: int| from <= j < made.len() implies index_justified(#[trigger] made[j], objects, s) by {
        assert(identity_justified(made[j], objects));
    }
}

/// Numbering the objects changes no id, lineage, kind, file or value.
proof fn lemma_same_ids(e1: Seq<ObjectRecord>, e2: Seq<ObjectRecord>)
    requires
        e1.len() == e2.len(),
        forall|k: int| 0 <= k < e2.len() ==> #[trigger] e2[k] == (ObjectRecord { ordinal: k as usize, ..e1[k] }),
    ensures
        forall|id: Seq<char>| #[trigger] object_with(e2, id) matches Some(r) ==> (object_with(e1, id) matches Some(r1)
            && r.id == r1.id && r.logical_id == r1.logical_id && r.object_type == r1.object_type && r.source_file == r1.source_file
            && r.value == r1.value),
        forall|id: Seq<char>| #[trigger] object_with(e1, id) is Some ==> object_with(e2, id) is Some,
        crate::index::ids_ascending(e1) ==> crate::index::ids_ascending(e2),
{
    assert forall|id: Seq<char>| #[trigger] object_with(e1, id) is Some implies object_with(e2, id) is Some by {
        lemma_positions_agree(e1, e2, id, e1.len() as int);
        lemma_position_of(e1, id);
        lemma_position_of(e2, id);
    }
    assert forall|id: Seq<char>| #[trigger] object_with(e2, id) is Some implies {
        let r = object_with(e2, id)->0;
        object_with(e1, id) matches Some(r1)
        && r.id == r1.id && r.logical_id == r1.logical_id && r.object_type == r1.object_type && r.source_file == r1.source_file
        && r.value == r1.value
    } by {
        lemma_positions_agree(e1, e2, id, e1.len() as int);
        lemma_position_of(e2, id);
        let p = position_of(e2, id)->0;
        assert(e2[p] == (ObjectRecord { ordinal: p as usize, ..e1[p] }));
    }
    if crate::index::ids_ascending(e1) {
        assert forall|a: int, b: int| 0 <= a < b < e2.len() implies crate::text::bytes_lt(
            vstd::utf8::encode_utf8(#[trigger] e2[a].id@),
            vstd::utf8::encode_utf8(#[trigger] e2[b].id@),
        ) by {
            assert(e2[a].id == e1[a].id && e2[b].id == e1[b].id);
        }
    }
}

proof fn lemma_positions_agree(e1: Seq<ObjectRecord>, e2: Seq<ObjectRecord>, id: Seq<char>, m: int)
    requires
        e1.len() == e2.len(),
        0 <= m <= e1.len(),
        forall|k: int| 0 <= k < e2.len() ==> #[trigger] e2[k] == (ObjectRecord { ordinal: k as usize, ..e1[k] }),
    ensures
        position_of(e2.take(m), id) == position_of(e1.take(m), id),
        m == e1.len() ==> position_of(e2, id) == position_of(e1, id),
    decreases m,
{
    if m > 0 {
        lemma_positions_agree(e1, e2, id, m - 1);
        assert(e2.take(m).drop_last() =~= e2.take(m - 1));
        assert(e1.take(m).drop_last() =~= e1.take(m - 1));
        assert(e2.take(m).last() == e2[m - 1]);
        assert(e1.take(m).last() == e1[m - 1]);
    }
    if m == e1.len() {
        assert(e1.take(m) =~= e1);
        assert(e2.take(m) =~= e2);
    }
}

/// The reference and cross-object findings that follow the identity findings are
/// owed by the index.
proof fn lemma_reference_findings(
    g3: Seq<Finding>,
    g4: Seq<Finding>,
    g5: Seq<Finding>,
    from: int,
    objects: Seq<ParsedObject>,
    s: Seq<ObjectRecord>,
    refs: Seq<ReferenceEdge>,
)
    requires
        0 <= from <= g3.len(),
        g3.is_prefix_of(g4),
        g4.is_prefix_of(g5),
        forall|j: int| from <= j < g3.len() ==> identity_justified(#[trigger] g3[j], objects),
        reported_in_order(g4.skip(g3.len() as int), s, refs),
        all_semantic(g5, g4.len() as int, s),
        forall|r: int| 0 <= r < refs.len() ==> declared_somewhere(s, #[trigger] refs[r]),
    ensures
        forall|j: int| from <= j < g5.len() ==> index_justified(#[trigger] g5[j], objects, s),
{
    let made = g4.skip(g3.len() as int);
    let m = choose|m: int|
        {
            &&& 0 <= m <= refs.len()
            &&& made.len() == problem_edges(s, refs.take(m)).len()
            &&& forall|i: int| 0 <= i < made.len() ==> reports_reference(#[trigger] made[i], s, problem_edges(s, refs.take(m))[i])
        };
    let pe = problem_edges(s, refs.take(m));
    lemma_problem_edges_members(s, refs.take(m));
    assert forall|j: int| from <= j < g5.len() implies index_justified(#[trigger] g5[j], objects, s) by {
        if j < g3.len() {
            assert(g5[j] == g4[j]);
            assert(g4[j] == g3[j]);
            assert(identity_justified(g3[j], objects));
        } else if j < g4.len() {
            assert(g5[j] == g4[j]);
            let i = j - g3.len();
            assert(made[i] == g4[j]);
            let e = pe[i];
            assert(reports_reference(made[i], s, e));
            let r = choose|r: int| 0 <= r < refs.take(m).len() && refs.take(m)[r] == pe[i];
            assert(refs[r] == e);
            assert(declared_somewhere(s, refs[r]));
        } else {
            assert(semantic_justified(g5[j], s));
        }
    }
}

/// Indexes one canonical object: its place, file name and state are checked; an
/// object whose id the index already holds is reported as a duplicate and left out;
/// any other is added as a record.
pub fn index_step(index: &mut ProjectIndex, o: ParsedObject, findings: &mut Findings)
    requires
        old(index).wf(),
        old(findings).wf(),
        canonical_object(o),
    ensures
        final(index).wf(),
        final(findings).wf(),
        final(findings).shares_allowance(&*old(findings)),
        old(findings).retained().is_prefix_of(final(findings).retained()),
        object_with(old(index).entries(), id_of(o)) is Some ==> final(index).entries() == old(index).entries()
            && exists|t: ObjectType| type_of_value(o.value, t) && #[trigger] reported_from(
                final(findings).retained().skip(old(findings).retained().len() as int),
                identity_owed(o, t).push(duplicate_owed(o)),
            ),
        object_with(old(index).entries(), id_of(o)) is None ==> {
            &&& final(index).entries().len() == old(index).entries().len() + 1
            &&& object_with(final(index).entries(), id_of(o)) matches Some(r) && record_from(r, o)
            &&& forall|x: Seq<char>| x != id_of(o) ==> #[trigger] object_with(final(index).entries(), x) == object_with(old(index).entries(), x)
            &&& exists|t: ObjectType| type_of_value(o.value, t) && #[trigger] reported_from(
                final(findings).retained().skip(old(findings).retained().len() as int),
                identity_owed(o, t),
            )
        },
{
    let ghost g = findings.retained();
    let id = match o.value.get("id") {
        Some(v) => match v.as_str() {
            Some(t) => t.to_owned(),
            None => {
                proof { assert(false); }
                return;
            },
        },
        None => {
            proof { assert(false); }
            return;
        },
    };
    let object_type = match object_type_of(&o.value) {
        Some(t) => t,
        None => {
            proof { assert(false); }
            return;
        },
    };
    let ghost p0 = *findings;
    report_identity(&o, &object_type, id.as_str(), findings);
    let ghost g0 = findings.retained();
    proof {
        crate::findings::lemma_shares_allowance(&*findings, &p0, &p0);
    }
    let logical_id = match o.value.get("logical_id") {
        Some(v) => match v.as_str() {
            Some(t) => Some(t.to_owned()),
            None => None,
        },
        None => None,
    };
    let ghost e0 = index.entries();
    proof {
        lemma_position_of(e0, id@);
    }
    if index.get(id.as_str()).is_some() {
        let mut m = String::new();
        string_push_str(&mut m, "object ID ");
        string_push_str(&mut m, id.as_str());
        string_push_str(&mut m, " appears in more than one canonical file");
        let f = located("RP_E_OBJECT_DUPLICATE_ID", "object_identity", m.as_str(), &o.path, "/id");
        let ghost p1 = *findings;
        proof {
            assert(is_owed(f, duplicate_owed(o)));
        }
        let ghost w = seq![duplicate_owed(o)];
        report_opt(findings, Some(f), Ghost(w));
        proof {
            crate::findings::lemma_shares_allowance(&*findings, &p1, &p0);
            crate::findings::lemma_shares_allowance(&*findings, &p0, &*old(findings));
            lemma_reported_steps(g, g0, findings.retained(), identity_owed(o, object_type), seq![duplicate_owed(o)]);
            assert(identity_owed(o, object_type) + seq![duplicate_owed(o)] =~= identity_owed(o, object_type).push(duplicate_owed(o)));
            assert(g.is_prefix_of(findings.retained())) by {
                assert(findings.retained().take(g.len() as int) == g);
                assert forall|j: int| 0 <= j < g.len() implies findings.retained()[j] == g[j] by {
                    assert(findings.retained().take(g.len() as int)[j] == findings.retained()[j]);
                }
            }
        }
    } else {
        let record = ObjectRecord {
            ordinal: index.len(),
            id,
            logical_id,
            object_type,
            source_file: o.path,
            value: o.value,
        };
        let ghost rec = record;
        index.insert(record);
        proof {
            crate::findings::lemma_shares_allowance(&*findings, &p0, &*old(findings));
            assert(record_from(rec, o));
            assert(g.is_prefix_of(findings.retained()));
        }
    }
}

/// Indexes canonical objects in order and checks them: each object's place, file
/// name and state; duplicate ids; the graph's object and reference limits; every
/// reference; and the cross-object checks. An object whose id an earlier object
/// holds is reported and left out. Stops where the run is stopped or out of
/// allowance; past the reference limit the index is emptied.
pub fn index_objects(objects: Vec<ParsedObject>, limits: ProjectLimits, findings: &mut Findings) -> (index: ProjectIndex)
    requires
        old(findings).wf(),
        objects@.len() < u32::MAX,
        forall|i: int| 0 <= i < objects@.len() ==> canonical_object(#[trigger] objects@[i]),
    ensures
        index.wf(),
        final(findings).wf(),
        final(findings).shares_allowance(&*old(findings)),
        old(findings).retained().is_prefix_of(final(findings).retained()),
        objects@.len() > limits.graph_nodes ==> index.entries().len() == 0,
        forall|id: Seq<char>| #[trigger] object_with(index.entries(), id) matches Some(r) ==> (first_with(objects@, objects@.len() as int, id) matches Some(i)
            && record_from(r, objects@[i])),
        forall|k: int| old(findings).retained().len() <= k < final(findings).retained().len()
            ==> index_justified(#[trigger] final(findings).retained()[k], objects@, index.entries()),
        index.entries().len() > 0 ==> exists|m: int| 0 <= m <= objects@.len() && #[trigger] indexed_first(index.entries(), objects@, m),
{
    let ghost all = objects@;
    let ghost n = all.len() as int;
    let ghost base = findings.retained();
    let mut index = ProjectIndex::with_execution(findings.execution().clone());
    proof {
        crate::findings::lemma_shares_allowance(&*findings, &*findings, &*findings);
        assert(base.is_prefix_of(findings.retained()));
    }
    if objects.len() > limits.graph_nodes {
        let ghost prior = *findings;
        proof {
            reveal_strlit("RP_E_RESOURCE_GRAPH_NODES_EXCEEDED");
            reveal_strlit("graph node limit exceeded");
            reveal_strlit("resource_limit");
            reveal_strlit("");
        }
        let f = resource_finding("RP_E_RESOURCE_GRAPH_NODES_EXCEEDED", "graph node limit exceeded", None);
        report(findings, f);
        proof {
            crate::findings::lemma_shares_allowance(&*findings, &prior, &*old(findings));
            assert(findings.retained().subrange(0, base.len() as int) =~= base);
            assert forall|k: int| base.len() <= k < findings.retained().len()
                implies index_justified(#[trigger] findings.retained()[k], all, index.entries()) by {
                assert(findings.retained()[k] == f);
                assert(reports_graph_limit(f));
            }
            assert forall|id: Seq<char>| #[trigger] object_with(index.entries(), id) is None by {}
        }
        return index;
    }
    let mut rev = reverse_objects(objects);
    let mut k: usize = 0;
    proof {
        assert(all.subrange(0, n).reverse() =~= rev@);
    }
    while rev.len() > 0
        invariant
            all.len() == n,
            n < u32::MAX,
            forall|i: int| 0 <= i < n ==> canonical_object(#[trigger] all[i]),
            k <= n,
            rev@ == all.subrange(k as int, n).reverse(),
            index.wf(),
            index.entries().len() <= k,
            indexed_first(index.entries(), all, k as int),
            findings.wf(),
            findings.shares_allowance(&*old(findings)),
            base == old(findings).retained(),
            base.is_prefix_of(findings.retained()),
            forall|j: int| base.len() <= j < findings.retained().len() ==> identity_justified(#[trigger] findings.retained()[j], all),
        decreases rev@.len(),
    {
        if findings.cancelled() {
            break;
        }
        let ghost before_rev = rev@;
        let o = rev.pop().unwrap();
        proof {
            assert(o == all[k as int]) by {
                assert(before_rev.last() == all.subrange(k as int, n).reverse().last());
            }
            assert(rev@ =~= all.subrange(k + 1, n).reverse());
            assert(canonical_object(all[k as int]));
        }
        let ghost g0 = findings.retained();
        let ghost p0 = *findings;
        let ghost e0 = index.entries();
        let ghost ok = all[k as int];
        index_step(&mut index, o, findings);
        proof {
            crate::findings::lemma_shares_allowance(&*findings, &p0, &*old(findings));
            lemma_position_of(e0, id_of(ok));
            lemma_first_with_bound(all, k as int, id_of(ok));
            let dup = object_with(e0, id_of(ok)) is Some;
            let t = if dup {
                choose|t: ObjectType| type_of_value(ok.value, t) && #[trigger] reported_from(
                    findings.retained().skip(g0.len() as int),
                    identity_owed(ok, t).push(duplicate_owed(ok)),
                )
            } else {
                choose|t: ObjectType| type_of_value(ok.value, t) && #[trigger] reported_from(
                    findings.retained().skip(g0.len() as int),
                    identity_owed(ok, t),
                )
            };
            let w = if dup { identity_owed(ok, t).push(duplicate_owed(ok)) } else { identity_owed(ok, t) };
            lemma_reported_members(findings.retained().skip(g0.len() as int), w);
            assert forall|j: int| base.len() <= j < findings.retained().len() implies identity_justified(#[trigger] findings.retained()[j], all) by {
                if j < g0.len() {
                    assert(findings.retained()[j] == g0[j]);
                } else {
                    let f = findings.retained()[j];
                    assert(f == findings.retained().skip(g0.len() as int)[j - g0.len()]);
                    assert(owes(w, f));
                    let q = choose|q: int| 0 <= q < w.len() && is_owed(f, #[trigger] w[q]);
                    if q < identity_owed(ok, t).len() {
                        assert(w[q] == identity_owed(ok, t)[q]);
                        assert(owes(identity_owed(all[k as int], t), f));
                    } else {
                        assert(w[q] == duplicate_owed(ok));
                    }
                }
            }
            assert(base.is_prefix_of(findings.retained())) by {
                assert forall|j: int| 0 <= j < base.len() implies findings.retained()[j] == base[j] by {
                    assert(g0[j] == base[j]);
                    assert(findings.retained()[j] == g0[j]);
                }
            }
            let id = id_of(ok);
            if object_with(e0, id) is Some {
                assert forall|x: Seq<char>| #[trigger] object_with(index.entries(), x) is Some implies (first_with(all, k + 1, x) matches Some(i) && record_from(object_with(index.entries(), x)->0, all[i])) by {
                    assert(first_with(all, k as int, x) is Some);
                }
                assert forall|x: Seq<char>| #[trigger] first_with(all, k + 1, x) is Some implies object_with(index.entries(), x) is Some by {
                    if first_with(all, k as int, x) is None {
                        assert(x == id);
                    }
                }
            } else {
                if first_with(all, k as int, id) is Some {
                    assert(object_with(e0, id) is Some);
                }
                assert forall|x: Seq<char>| #[trigger] object_with(index.entries(), x) is Some implies (first_with(all, k + 1, x) matches Some(i) && record_from(object_with(index.entries(), x)->0, all[i])) by {
                    if x == id {
                        assert(first_with(all, k + 1, x) == Some(k as int));
                    } else {
                        assert(object_with(index.entries(), x) == object_with(e0, x));
                    }
                }
                assert forall|x: Seq<char>| #[trigger] first_with(all, k + 1, x) is Some implies object_with(index.entries(), x) is Some by {
                    if x != id {
                        assert(object_with(index.entries(), x) == object_with(e0, x));
                    }
                }
            }
        }
        k = k + 1;
    }
    proof {
        assert forall|x: Seq<char>| #[trigger] object_with(index.entries(), x) is Some implies (first_with(all, n, x) matches Some(i) && record_from(object_with(index.entries(), x)->0, all[i])) by {
            lemma_first_with_prefix(all, k as int, n, x);
        }
    }
    if findings.cancelled() {
        proof {
            lemma_identity_to_index(findings.retained(), base.len() as int, all, index.entries());
        }
        return index;
    }
    let ghost e1 = index.entries();
    let ghost m_end = k as int;
    proof {
        assert(indexed_first(e1, all, m_end));
    }
    index.assign_ordinals();
    proof {
        lemma_same_ids(e1, index.entries());
        assert forall|id: Seq<char>| #[trigger] object_with(index.entries(), id) is Some implies (first_with(all, m_end, id) matches Some(i)
            && record_from(object_with(index.entries(), id)->0, all[i])) by {
            assert(object_with(e1, id) is Some);
            assert(first_with(all, m_end, id) is Some);
        }
        assert(indexed_first(index.entries(), all, m_end));
    }
    let s_objects = index.objects();
    let ghost s = index.entries();
    let mut references: Vec<ReferenceEdge> = Vec::new();
    let mut i: usize = 0;
    while i < s_objects.len()
        invariant
            index.wf(),
            s == index.entries(),
            s_objects@ == s,
            all == objects@,
            i <= s.len(),
            s.len() < u32::MAX,
            forall|r: int| 0 <= r < references@.len() ==> position_of(s, (#[trigger] references@[r]).source_id@) is Some
                && declared_somewhere(s, references@[r]),
            findings.wf(),
            findings.shares_allowance(&*old(findings)),
            base == old(findings).retained(),
            base.is_prefix_of(findings.retained()),
            forall|j: int| base.len() <= j < findings.retained().len() ==> identity_justified(#[trigger] findings.retained()[j], all),
            forall|x: Seq<char>| #[trigger] object_with(s, x) matches Some(r) ==> (first_with(all, n, x) matches Some(w) && record_from(r, all[w])),
            0 <= m_end <= n,
            indexed_first(s, all, m_end),
        decreases s.len() - i,
    {
        if findings.cancelled() {
            break;
        }
        let ghost r0 = references@;
        collect_references(&s_objects[i], &mut references);
        proof {
            crate::index::lemma_rules_edges_source(s[i as int].id@, s[i as int].value, crate::index::object_rules(s[i as int].object_type, s[i as int].value));
            index.lemma_wf_ascending();
            crate::cycles::lemma_at_position(s, i as int);
            assert forall|r: int| 0 <= r < references@.len() implies position_of(s, (#[trigger] references@[r]).source_id@) is Some
                && declared_somewhere(s, references@[r]) by {
                if r < r0.len() {
                    assert(references@.take(r0.len() as int)[r] == r0[r]);
                    assert(references@[r] == r0[r]);
                } else {
                    let added = references@.skip(r0.len() as int).map_values(|e: ReferenceEdge| edge_view(e));
                    assert(added[r - r0.len()] == edge_view(references@[r]));
                    assert(declared_references(s[i as int]).contains(edge_view(references@[r])));
                    assert(declared_somewhere(s, references@[r]));
                    assert(edge_view(references@[r]).0 == s[i as int].id@);
                }
            }
        }
        if references.len() > limits.graph_edges {
            let ghost prior = *findings;
            let ghost g2 = findings.retained();
            proof {
                reveal_strlit("RP_E_RESOURCE_GRAPH_EDGES_EXCEEDED");
                reveal_strlit("graph edge limit exceeded");
                reveal_strlit("resource_limit");
                reveal_strlit("");
            }
            let f = resource_finding("RP_E_RESOURCE_GRAPH_EDGES_EXCEEDED", "graph edge limit exceeded", None);
            report(findings, f);
            let empty = ProjectIndex::with_execution(index.execution_budget().clone());
            proof {
                crate::findings::lemma_shares_allowance(&*findings, &prior, &*old(findings));
                assert(base.is_prefix_of(findings.retained())) by {
                    assert forall|j: int| 0 <= j < base.len() implies findings.retained()[j] == base[j] by {
                        assert(g2[j] == base[j]);
                    }
                }
                assert forall|j: int| base.len() <= j < findings.retained().len()
                    implies index_justified(#[trigger] findings.retained()[j], all, empty.entries()) by {
                    if j < g2.len() {
                        assert(findings.retained()[j] == g2[j]);
                        assert(identity_justified(g2[j], all));
                    } else {
                        assert(findings.retained()[j] == f);
                        assert(reports_graph_limit(f));
                    }
                }
            }
            return empty;
        }
        i = i + 1;
    }
    let ghost g3 = findings.retained();
    let ghost p3 = *findings;
    validate_references(&index, references.as_slice(), findings);
    let ghost g4 = findings.retained();
    let ghost p4 = *findings;
    validate_semantics(&index, limits, findings);
    proof {
        crate::findings::lemma_shares_allowance(&p4, &p3, &*old(findings));
        crate::findings::lemma_shares_allowance(&*findings, &p4, &*old(findings));
        assert forall|r: int| 0 <= r < references@.len() implies declared_somewhere(s, #[trigger] references@[r]) by {
            assert(position_of(s, references@[r].source_id@) is Some);
        }
        lemma_reference_findings(g3, g4, findings.retained(), base.len() as int, all, s, references@);
    }
    if findings.cancelled() {
        return index;
    }
    index.derive_heads();
    index.set_references(references);
    index
}

} // verus!
