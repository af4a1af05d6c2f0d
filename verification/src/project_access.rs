//! Access labels read out of an indexed project: the compartment vocabulary, each
//! object's declared label and the dependency graph its resolved references form.
use vstd::prelude::*;

use crate::access::{assessed, export_decision, export_eligible, AccessReport, DependencyStep, ExportDecision, ExportRequest, deficit_access_code, deficit_code, generic_code, level_rank, label_fits, AccessStore, StoredAccessReport, names, names_ascending, parse_level, usize_has, AccessGraph, AccessLevel, CompactAccess, CompactCompartments};
use crate::index::{copy_edge, object_with, position_of, ObjectRecord, ProjectIndex};
use crate::model::ReferenceEdge;
use crate::json::{as_items, as_text, json_get, json_pointer};
use crate::model::ObjectType;
use crate::execution::ExecutionStop;
use crate::finding::{Finding, ProjectPath, Severity};
use crate::findings::Findings;
use crate::semantics::{is_owed, lemma_reported_concat, lemma_reported_empty, lemma_reported_extend, lemma_reported_steps, owed_if, report_opt, reported_from};
use crate::report_json::JsonValue;
use crate::text::{bytes_lt, compare_bytes, has_prefix, starts_with, str_eq, string_push_str, lemma_bytes_lt_irreflexive, lemma_bytes_lt_transitive, lemma_utf8_injective};
use vstd::utf8::encode_utf8;

verus! {

broadcast use vstd::seq_lib::group_to_multiset_ensures;

/// The access value of an object: a project's defaults, any other object's own.
pub open spec fn access_of(o: ObjectRecord) -> Option<JsonValue> {
    if o.object_type is Project {
        json_get(o.value, "access_defaults"@)
    } else {
        json_get(o.value, "access"@)
    }
}

/// The compartment list of an object's access value, where it is an array.
pub open spec fn compartment_items(o: ObjectRecord) -> Option<Seq<JsonValue>> {
    match access_of(o) {
        Some(a) => as_items(json_get(a, "compartments"@)),
        None => None,
    }
}

/// Some item of `items` is the string `n`.
pub open spec fn lists_text(items: Seq<JsonValue>, n: Seq<char>) -> bool {
    exists|i: int| 0 <= i < items.len() && as_text(Some(#[trigger] items[i])) == Some(n)
}

/// The object's compartment list names `n`.
pub open spec fn lists_compartment(o: ObjectRecord, n: Seq<char>) -> bool {
    compartment_items(o) matches Some(items) && lists_text(items, n)
}

/// Some object of `s` names compartment `n`.
pub open spec fn in_vocabulary(s: Seq<ObjectRecord>, n: Seq<char>) -> bool {
    exists|k: int| 0 <= k < s.len() && lists_compartment(#[trigger] s[k], n)
}

/// The level an object's access value declares, where it is one of the four.
pub open spec fn declared_level(o: ObjectRecord) -> Option<AccessLevel> {
    match access_of(o) {
        Some(a) => match as_text(json_get(a, "level"@)) {
            Some(t) => parse_level(t),
            None => None,
        },
        None => None,
    }
}

/// An object declares a label: a known level and a compartment list.
pub open spec fn declares_label(o: ObjectRecord) -> bool {
    declared_level(o) is Some && compartment_items(o) is Some
}

/// `c` holds exactly the vocabulary positions of the compartments `o` lists.
pub open spec fn label_matches(o: ObjectRecord, vocabulary: Seq<String>, l: CompactAccess) -> bool {
    &&& declared_level(o) == Some(l.level)
    &&& label_fits(l.compartments, vocabulary.len() as int)
    &&& forall|i: int| #[trigger] l.compartments.has(i) <==> (0 <= i < vocabulary.len() && i <= u32::MAX
        && lists_compartment(o, vocabulary[i]@))
}

/// The strings of a list, in order.
pub open spec fn texts_of(items: Seq<JsonValue>) -> Seq<Seq<char>>
    decreases items.len(),
{
    if items.len() == 0 {
        Seq::empty()
    } else {
        let prev = texts_of(items.drop_last());
        match as_text(Some(items.last())) {
            Some(t) => prev.push(t),
            None => prev,
        }
    }
}

/// Each text precedes the next in the byte order of its UTF-8 encoding.
pub open spec fn texts_ascending(t: Seq<Seq<char>>) -> bool {
    forall|a: int| 0 <= a < t.len() - 1 ==> bytes_lt(encode_utf8(#[trigger] t[a]), encode_utf8(t[a + 1]))
}

/// The object's `/access/compartments` strings ascend strictly, or it has no such list.
pub open spec fn compartments_sorted(v: JsonValue) -> bool {
    match as_items(json_pointer(v, "/access/compartments"@)) {
        Some(items) => texts_ascending(texts_of(items)),
        None => true,
    }
}

/// The access value of an object (see `access_of`).
pub fn access_value(o: &ObjectRecord) -> (r: Option<&JsonValue>)
    ensures
        match r {
            Some(x) => access_of(*o) == Some(*x),
            None => access_of(*o) is None,
        },
{
    match o.object_type {
        ObjectType::Project => o.value.get("access_defaults"),
        _ => o.value.get("access"),
    }
}

/// The compartment list of an object's access value.
fn compartment_list(o: &ObjectRecord) -> (r: Option<&Vec<JsonValue>>)
    ensures
        match r {
            Some(items) => compartment_items(*o) == Some(items@),
            None => compartment_items(*o) is None,
        },
{
    match access_value(o) {
        Some(a) => match a.get("compartments") {
            Some(c) => c.as_array(),
            None => None,
        },
        None => None,
    }
}

/// Adds `x` to a strictly ascending list of names unless it is there.
pub fn insert_name(list: &mut Vec<String>, x: &str)
    requires
        names_ascending(old(list)@),
    ensures
        names_ascending(final(list)@),
        forall|n: Seq<char>| #[trigger] names(final(list)@).contains(n) <==> (names(old(list)@).contains(n) || n == x@),
{
    let ghost keys = list@;
    let mut p: usize = 0;
    while p < list.len() && compare_bytes(list[p].as_str().as_bytes(), x.as_bytes()) < 0
        invariant
            p <= list@.len(),
            keys == list@,
            forall|k: int| 0 <= k < p ==> bytes_lt(encode_utf8((#[trigger] keys[k])@), encode_utf8(x@)),
        decreases list.len() - p,
    {
        p = p + 1;
    }
    if p < list.len() && str_same(list[p].as_str(), x) {
        return;
    }
    let ghost at_p = p;
    proof {
        if p < keys.len() {
            lemma_utf8_injective(keys[p as int]@, x@);
            assert(!bytes_lt(encode_utf8(keys[p as int]@), encode_utf8(x@)));
            crate::text::lemma_bytes_lt_total(encode_utf8(keys[p as int]@), encode_utf8(x@));
            assert(bytes_lt(encode_utf8(x@), encode_utf8(keys[p as int]@)));
        }
    }
    list.insert(p, x.to_string());
    let ghost nk = list@;
    assert(nk =~= keys.insert(p as int, nk[p as int]));
    assert forall|a: int, b: int| 0 <= a < b < nk.len() implies bytes_lt(encode_utf8(nk[a]@), encode_utf8(nk[b]@)) by {
        if a < p && b == p {
        } else if a == p && b > p {
            assert(nk[b] == keys[b - 1]);
            if b - 1 > p {
                assert(bytes_lt(encode_utf8(keys[p as int]@), encode_utf8(keys[b - 1]@)));
                lemma_bytes_lt_transitive(encode_utf8(x@), encode_utf8(keys[p as int]@), encode_utf8(keys[b - 1]@));
            }
        } else if a < p && b < p {
        } else if a < p && b > p {
            assert(nk[b] == keys[b - 1]);
            if b - 1 > a {
                assert(bytes_lt(encode_utf8(keys[a]@), encode_utf8(keys[b - 1]@)));
            }
        } else {
            assert(nk[b] == keys[b - 1]);
            assert(nk[a] == keys[a - 1]);
        }
    }
    assert forall|n: Seq<char>| #[trigger] names(nk).contains(n) <==> (names(keys).contains(n) || n == x@) by {
        if exists|i: int| 0 <= i < nk.len() && (#[trigger] nk[i])@ == n {
            let i = choose|i: int| 0 <= i < nk.len() && (#[trigger] nk[i])@ == n;
            if i < p {
                assert(keys[i] == nk[i]);
            } else if i > p {
                assert(keys[i - 1] == nk[i]);
            }
        }
        if exists|i: int| 0 <= i < keys.len() && (#[trigger] keys[i])@ == n {
            let i = choose|i: int| 0 <= i < keys.len() && (#[trigger] keys[i])@ == n;
            if i < p {
                assert(nk[i] == keys[i]);
            } else {
                assert(nk[i + 1] == keys[i]);
            }
        }
        if n == x@ {
            assert(nk[p as int]@ == x@);
        }
    }
}

fn str_same(a: &str, b: &str) -> (r: bool)
    ensures
        r == (a@ == b@),
{
    crate::text::str_eq(a, b)
}

/// Every compartment name any object's access value lists, once each, in ascending
/// byte order.
pub fn compartment_vocabulary(objects: &[ObjectRecord]) -> (r: Vec<String>)
    ensures
        names_ascending(r@),
        forall|n: Seq<char>| #[trigger] names(r@).contains(n) <==> in_vocabulary(objects@, n),
{
    let mut vocab: Vec<String> = Vec::new();
    let mut k: usize = 0;
    while k < objects.len()
        invariant
            k <= objects@.len(),
            names_ascending(vocab@),
            forall|n: Seq<char>| #[trigger] names(vocab@).contains(n) <==> in_vocabulary(objects@.subrange(0, k as int), n),
        decreases objects@.len() - k,
    {
        let ghost before = vocab@;
        let ghost sk = objects@.subrange(0, k as int);
        let ghost sk1 = objects@.subrange(0, k + 1);
        let o = &objects[k];
        match compartment_list(o) {
            Some(items) => {
                let mut j: usize = 0;
                while j < items.len()
                    invariant
                        j <= items@.len(),
                        compartment_items(*o) == Some(items@),
                        names_ascending(vocab@),
                        forall|n: Seq<char>| #[trigger] names(vocab@).contains(n) <==> (names(before).contains(n)
                            || lists_text(items@.subrange(0, j as int), n)),
                    decreases items@.len() - j,
                {
                    let ghost mid = vocab@;
                    let ghost sub = items@.subrange(0, j + 1);
                    match items[j].as_str() {
                        Some(t) => {
                            insert_name(&mut vocab, t);
                        },
                        None => {},
                    }
                    proof {
                        assert forall|n: Seq<char>| lists_text(sub, n) <==> (lists_text(items@.subrange(0, j as int), n)
                            || as_text(Some(items@[j as int])) == Some(n)) by {
                            if lists_text(sub, n) {
                                let i = choose|i: int| 0 <= i < sub.len() && as_text(Some(#[trigger] sub[i])) == Some(n);
                                if i < j {
                                    assert(items@.subrange(0, j as int)[i] == sub[i]);
                                }
                            }
                            if lists_text(items@.subrange(0, j as int), n) {
                                let i = choose|i: int| 0 <= i < j && as_text(Some(#[trigger] items@.subrange(0, j as int)[i])) == Some(n);
                                assert(sub[i] == items@.subrange(0, j as int)[i]);
                            }
                            if as_text(Some(items@[j as int])) == Some(n) {
                                assert(sub[j as int] == items@[j as int]);
                            }
                        }
                    }
                    j = j + 1;
                }
                proof {
                    assert(items@.subrange(0, j as int) =~= items@);
                }
            },
            None => {},
        }
        proof {
            assert forall|n: Seq<char>| in_vocabulary(sk1, n) <==> (in_vocabulary(sk, n) || lists_compartment(objects@[k as int], n)) by {
                if in_vocabulary(sk1, n) {
                    let q = choose|q: int| 0 <= q < sk1.len() && lists_compartment(#[trigger] sk1[q], n);
                    if q < k {
                        assert(sk[q] == sk1[q]);
                    }
                }
                if in_vocabulary(sk, n) {
                    let q = choose|q: int| 0 <= q < sk.len() && lists_compartment(#[trigger] sk[q], n);
                    assert(sk1[q] == sk[q]);
                }
                if lists_compartment(objects@[k as int], n) {
                    assert(sk1[k as int] == objects@[k as int]);
                }
            }
        }
        k = k + 1;
    }
    proof {
        assert(objects@.subrange(0, k as int) =~= objects@);
    }
    vocab
}

/// The position of `t` in a vocabulary.
fn vocabulary_position(vocabulary: &Vec<String>, t: &str) -> (r: Option<usize>)
    ensures
        r matches Some(p) ==> p < vocabulary@.len() && vocabulary@[p as int]@ == t@,
        r is None ==> forall|i: int| 0 <= i < vocabulary@.len() ==> (#[trigger] vocabulary@[i])@ != t@,
{
    let mut i: usize = 0;
    while i < vocabulary.len()
        invariant
            i <= vocabulary@.len(),
            forall|k: int| 0 <= k < i ==> (#[trigger] vocabulary@[k])@ != t@,
        decreases vocabulary@.len() - i,
    {
        if str_same(vocabulary[i].as_str(), t) {
            return Some(i);
        }
        i = i + 1;
    }
    None
}

/// Distinct positions of an ascending vocabulary hold distinct names.
proof fn lemma_vocabulary_distinct(vocabulary: Seq<String>, a: int, b: int)
    requires
        names_ascending(vocabulary),
        0 <= a < vocabulary.len(),
        0 <= b < vocabulary.len(),
        vocabulary[a]@ == vocabulary[b]@,
    ensures
        a == b,
{
    if a < b {
        lemma_bytes_lt_irreflexive(encode_utf8(vocabulary[a]@));
    } else if b < a {
        lemma_bytes_lt_irreflexive(encode_utf8(vocabulary[a]@));
    }
}

/// The label an object declares, its compartments as positions in `vocabulary`; none
/// where its access value lacks a known level or a compartment list.
pub fn declared_label(o: &ObjectRecord, vocabulary: &Vec<String>) -> (r: Option<CompactAccess>)
    requires
        names_ascending(vocabulary@),
    ensures
        r is Some <==> declares_label(*o),
        r matches Some(l) ==> label_matches(*o, vocabulary@, l),
{
    let access = match access_value(o) {
        Some(a) => a,
        None => return None,
    };
    let level = match access.get("level") {
        Some(v) => match v.as_str() {
            Some(t) => match AccessLevel::parse(t) {
                Some(l) => l,
                None => return None,
            },
            None => return None,
        },
        None => return None,
    };
    let items = match compartment_list(o) {
        Some(items) => items,
        None => return None,
    };
    let mut positions: Vec<usize> = Vec::new();
    let mut j: usize = 0;
    while j < items.len()
        invariant
            j <= items@.len(),
            names_ascending(vocabulary@),
            forall|k: int| 0 <= k < positions@.len() ==> #[trigger] positions@[k] < vocabulary@.len(),
            forall|i: int| 0 <= i < vocabulary@.len() ==> (#[trigger] usize_has(positions@, i)
                <==> lists_text(items@.subrange(0, j as int), vocabulary@[i]@)),
            forall|i: int| #[trigger] usize_has(positions@, i) ==> 0 <= i < vocabulary@.len(),
        decreases items@.len() - j,
    {
        let ghost before = positions@;
        let ghost sub = items@.subrange(0, j + 1);
        match items[j].as_str() {
            Some(t) => match vocabulary_position(vocabulary, t) {
                Some(p) => positions.push(p),
                None => {},
            },
            None => {},
        }
        proof {
            assert forall|i: int| 0 <= i < vocabulary@.len() implies (#[trigger] usize_has(positions@, i)
                <==> lists_text(sub, vocabulary@[i]@)) by {
                let n = vocabulary@[i]@;
                if lists_text(sub, n) {
                    let q = choose|q: int| 0 <= q < sub.len() && as_text(Some(#[trigger] sub[q])) == Some(n);
                    if q < j {
                        assert(items@.subrange(0, j as int)[q] == sub[q]);
                        assert(usize_has(before, i));
                        let w = choose|w: int| 0 <= w < before.len() && (#[trigger] before[w]) as int == i;
                        assert(positions@[w] == before[w]);
                    } else {
                        assert(sub[q] == items@[j as int]);
                        let p = positions@.last();
                        assert(positions@.len() == before.len() + 1);
                        lemma_vocabulary_distinct(vocabulary@, p as int, i);
                        assert(positions@[before.len() as int] == p);
                    }
                }
                if usize_has(positions@, i) {
                    let w = choose|w: int| 0 <= w < positions@.len() && (#[trigger] positions@[w]) as int == i;
                    if w < before.len() {
                        assert(positions@[w] == before[w]);
                        assert(usize_has(before, i));
                        let q = choose|q: int| 0 <= q < j && as_text(Some(#[trigger] items@.subrange(0, j as int)[q])) == Some(n);
                        assert(sub[q] == items@.subrange(0, j as int)[q]);
                    } else {
                        assert(sub[j as int] == items@[j as int]);
                    }
                }
            }
            assert forall|i: int| #[trigger] usize_has(positions@, i) implies 0 <= i < vocabulary@.len() by {
                let w = choose|w: int| 0 <= w < positions@.len() && (#[trigger] positions@[w]) as int == i;
            }
        }
        j = j + 1;
    }
    proof {
        assert(items@.subrange(0, j as int) =~= items@);
    }
    let compartments = CompactCompartments::from_indexes(positions.as_slice(), vocabulary.len());
    let l = CompactAccess { level, compartments };
    proof {
        assert forall|i: int| #[trigger] l.compartments.has(i) <==> (0 <= i < vocabulary@.len() && i <= u32::MAX
            && lists_compartment(*o, vocabulary@[i]@)) by {
            if l.compartments.has(i) {
                assert(usize_has(positions@, i));
            }
        }
    }
    Some(l)
}

proof fn lemma_texts_step(items: Seq<JsonValue>, j: int)
    requires
        0 <= j < items.len(),
    ensures
        texts_of(items.subrange(0, j + 1)) == match as_text(Some(items[j])) {
            Some(t) => texts_of(items.subrange(0, j)).push(t),
            None => texts_of(items.subrange(0, j)),
        },
{
    let sub = items.subrange(0, j + 1);
    assert(sub.drop_last() =~= items.subrange(0, j));
    assert(sub.last() == items[j]);
}

/// Whether an object's `/access/compartments` strings ascend strictly.
pub fn compartments_are_sorted(v: &JsonValue) -> (r: bool)
    ensures
        r == compartments_sorted(*v),
{
    let items = match v.at_pointer("/access/compartments") {
        Some(list) => match list.as_array() {
            Some(items) => items,
            None => return true,
        },
        None => return true,
    };
    let mut prev: Option<&str> = None;
    let mut j: usize = 0;
    proof {
        assert(items@.subrange(0, 0) =~= Seq::<JsonValue>::empty());
        assert(texts_of(items@.subrange(0, 0)) =~= Seq::<Seq<char>>::empty());
    }
    while j < items.len()
        invariant
            j <= items@.len(),
            as_items(json_pointer(*v, "/access/compartments"@)) == Some(items@),
            texts_ascending(texts_of(items@.subrange(0, j as int))),
            match prev {
                Some(t) => texts_of(items@.subrange(0, j as int)).len() > 0
                    && texts_of(items@.subrange(0, j as int)).last() == t@,
                None => texts_of(items@.subrange(0, j as int)).len() == 0,
            },
        decreases items@.len() - j,
    {
        let ghost before = texts_of(items@.subrange(0, j as int));
        proof {
            lemma_texts_step(items@, j as int);
        }
        match items[j].as_str() {
            Some(t) => {
                match prev {
                    Some(p) => {
                        if compare_bytes(p.as_bytes(), t.as_bytes()) >= 0 {
                            proof {
                                let now = texts_of(items@.subrange(0, j + 1));
                                assert(now == before.push(t@));
                                assert(now[before.len() - 1] == p@);
                                assert(!texts_ascending(now));
                                lemma_texts_stay_unsorted(items@, j + 1);
                            }
                            return false;
                        }
                    },
                    None => {},
                }
                prev = Some(t);
            },
            None => {},
        }
        j = j + 1;
    }
    proof {
        assert(items@.subrange(0, j as int) =~= items@);
    }
    true
}

/// Once two adjacent texts are out of order, longer prefixes stay out of order.
proof fn lemma_texts_stay_unsorted(items: Seq<JsonValue>, m: int)
    requires
        0 <= m <= items.len(),
        !texts_ascending(texts_of(items.subrange(0, m))),
    ensures
        !texts_ascending(texts_of(items)),
    decreases items.len() - m,
{
    if m < items.len() {
        lemma_texts_step(items, m);
        let a = texts_of(items.subrange(0, m));
        let b = texts_of(items.subrange(0, m + 1));
        let k = choose|k: int| 0 <= k < a.len() - 1 && !bytes_lt(encode_utf8(#[trigger] a[k]), encode_utf8(a[k + 1]));
        assert(b[k] == a[k] && b[k + 1] == a[k + 1]);
        lemma_texts_stay_unsorted(items, m + 1);
    } else {
        assert(items.subrange(0, m) =~= items);
    }
}

/// The order and label under which access policy lists an edge leaving an object of
/// kind `t` at `pointer`: source lists first, then revision parents, then each kind's
/// own references, extension references and, last, any other pointer by itself.
pub open spec fn access_edge_of(t: ObjectType, pointer: Seq<char>) -> (int, Seq<char>) {
    if has_prefix(pointer, "/source/revisions/"@) {
        (0, "source.revisions"@)
    } else if has_prefix(pointer, "/source/relations/"@) {
        (1, "source.relations"@)
    } else if has_prefix(pointer, "/source/external_references/"@) {
        (2, "source.external_references"@)
    } else if has_prefix(pointer, "/source/artifacts/"@) {
        (3, "source.artifacts"@)
    } else if has_prefix(pointer, "/revision/parents/"@) {
        match t {
            ObjectType::Node(_) => (5, "revision.parents"@),
            ObjectType::Relation => (8, "relation.revision.parents"@),
            ObjectType::ThreadBinding => (20, "binding.revision.parents"@),
            _ => (40, pointer),
        }
    } else {
        kind_edge_of(t, pointer)
    }
}

/// Extension references, else the pointer itself, last.
pub open spec fn other_edge_of(pointer: Seq<char>) -> (int, Seq<char>) {
    if has_prefix(pointer, "/extensions/"@) {
        (39, "extension_schema_declared_semantic_references"@)
    } else {
        (40, pointer)
    }
}

/// The references particular to each object kind.
pub open spec fn kind_edge_of(t: ObjectType, p: Seq<char>) -> (int, Seq<char>) {
    match t {
        ObjectType::Relation => if p == "/from_revision"@ {
            (6, "relation.from_revision"@)
        } else if p == "/to_revision"@ {
            (7, "relation.to_revision"@)
        } else {
            other_edge_of(p)
        },
        ObjectType::Assessment => if p == "/target/id"@ {
            (9, "assessment.target"@)
        } else if has_prefix(p, "/supersedes_assessments/"@) {
            (10, "assessment.supersedes_assessments"@)
        } else if has_prefix(p, "/quantitative_assessment/source_measurements/"@) {
            (11, "assessment.quantitative_assessment.source_measurements"@)
        } else {
            other_edge_of(p)
        },
        ObjectType::Thread => if p == "/root_question_revision"@ {
            (12, "thread.root_question_revision"@)
        } else if p == "/parent_thread_id"@ {
            (13, "thread.parent_thread_id"@)
        } else if p == "/forked_from_thread_id"@ {
            (14, "thread.forked_from_thread_id"@)
        } else {
            other_edge_of(p)
        },
        ObjectType::ThreadBinding => if p == "/thread_id"@ {
            (15, "binding.thread_id"@)
        } else if p == "/target/id"@ {
            (16, "binding.target"@)
        } else {
            other_edge_of(p)
        },
        ObjectType::ClaimChain => if p == "/thread_id"@ {
            (17, "claim_chain.thread_id"@)
        } else if has_prefix(p, "/root_node_revisions/"@) {
            (18, "claim_chain.root_node_revisions"@)
        } else if p == "/target_node_revision"@ {
            (19, "claim_chain.target_node_revision"@)
        } else if has_prefix(p, "/node_revisions/"@) {
            (20, "claim_chain.node_revisions"@)
        } else if has_prefix(p, "/relation_revisions/"@) {
            (21, "claim_chain.relation_revisions"@)
        } else if p == "/validation_report"@ {
            (22, "claim_chain.validation_report"@)
        } else {
            other_edge_of(p)
        },
        ObjectType::Node(_) => if p == "/scope/research_run_id"@ {
            (23, "node.scope.research_run_id"@)
        } else if has_prefix(p, "/scope/dataset_revisions/"@) {
            (24, "node.scope.dataset_revisions"@)
        } else if p == "/observation/method/protocol_reference"@ {
            (25, "node.observation.method.protocol_reference"@)
        } else if p == "/measurement/method/protocol_reference"@ {
            (26, "node.measurement.method.protocol_reference"@)
        } else if has_prefix(p, "/method/protocol_references/"@) {
            (27, "node.method.protocol_references"@)
        } else if has_prefix(p, "/test/target_revision_ids/"@) {
            (28, "node.test.target_revision_ids"@)
        } else if p == "/test/method_revision"@ {
            (29, "node.test.method_revision"@)
        } else if has_prefix(p, "/next_action/dependencies/"@) {
            (30, "node.next_action.dependencies"@)
        } else if p == "/paper_claim/publication_reference"@ {
            (31, "node.paper_claim.publication_reference"@)
        } else {
            other_edge_of(p)
        },
        ObjectType::ResearchRun => if p == "/project_id"@ {
            (35, "research_run.project_id"@)
        } else if p == "/parent_run_id"@ {
            (36, "research_run.parent_run_id"@)
        } else if has_prefix(p, "/planned_inputs/revisions/"@) {
            (37, "research_run.planned_inputs.revisions"@)
        } else if has_prefix(p, "/planned_inputs/artifacts/"@) {
            (38, "research_run.planned_inputs.artifacts"@)
        } else {
            other_edge_of(p)
        },
        _ => other_edge_of(p),
    }
}

/// How access policy names one edge: its rank and its label.
pub struct AccessEdge {
    pub order: u8,
    pub label: String,
}

fn edge(order: u8, label: &str) -> (r: AccessEdge)
    ensures
        r.order == order,
        r.label@ == label@,
{
    AccessEdge { order, label: label.to_string() }
}

fn other_edge(pointer: &str) -> (r: AccessEdge)
    ensures
        (r.order as int, r.label@) == other_edge_of(pointer@),
{
    if starts_with(pointer, "/extensions/") {
        edge(39, "extension_schema_declared_semantic_references")
    } else {
        edge(40, pointer)
    }
}

fn kind_edge(t: &ObjectType, p: &str) -> (r: AccessEdge)
    ensures
        (r.order as int, r.label@) == kind_edge_of(*t, p@),
{
    match t {
        ObjectType::Relation => if str_eq(p, "/from_revision") {
            edge(6, "relation.from_revision")
        } else if str_eq(p, "/to_revision") {
            edge(7, "relation.to_revision")
        } else {
            other_edge(p)
        },
        ObjectType::Assessment => if str_eq(p, "/target/id") {
            edge(9, "assessment.target")
        } else if starts_with(p, "/supersedes_assessments/") {
            edge(10, "assessment.supersedes_assessments")
        } else if starts_with(p, "/quantitative_assessment/source_measurements/") {
            edge(11, "assessment.quantitative_assessment.source_measurements")
        } else {
            other_edge(p)
        },
        ObjectType::Thread => if str_eq(p, "/root_question_revision") {
            edge(12, "thread.root_question_revision")
        } else if str_eq(p, "/parent_thread_id") {
            edge(13, "thread.parent_thread_id")
        } else if str_eq(p, "/forked_from_thread_id") {
            edge(14, "thread.forked_from_thread_id")
        } else {
            other_edge(p)
        },
        ObjectType::ThreadBinding => if str_eq(p, "/thread_id") {
            edge(15, "binding.thread_id")
        } else if str_eq(p, "/target/id") {
            edge(16, "binding.target")
        } else {
            other_edge(p)
        },
        ObjectType::ClaimChain => if str_eq(p, "/thread_id") {
            edge(17, "claim_chain.thread_id")
        } else if starts_with(p, "/root_node_revisions/") {
            edge(18, "claim_chain.root_node_revisions")
        } else if str_eq(p, "/target_node_revision") {
            edge(19, "claim_chain.target_node_revision")
        } else if starts_with(p, "/node_revisions/") {
            edge(20, "claim_chain.node_revisions")
        } else if starts_with(p, "/relation_revisions/") {
            edge(21, "claim_chain.relation_revisions")
        } else if str_eq(p, "/validation_report") {
            edge(22, "claim_chain.validation_report")
        } else {
            other_edge(p)
        },
        ObjectType::Node(_) => if str_eq(p, "/scope/research_run_id") {
            edge(23, "node.scope.research_run_id")
        } else if starts_with(p, "/scope/dataset_revisions/") {
            edge(24, "node.scope.dataset_revisions")
        } else if str_eq(p, "/observation/method/protocol_reference") {
            edge(25, "node.observation.method.protocol_reference")
        } else if str_eq(p, "/measurement/method/protocol_reference") {
            edge(26, "node.measurement.method.protocol_reference")
        } else if starts_with(p, "/method/protocol_references/") {
            edge(27, "node.method.protocol_references")
        } else if starts_with(p, "/test/target_revision_ids/") {
            edge(28, "node.test.target_revision_ids")
        } else if str_eq(p, "/test/method_revision") {
            edge(29, "node.test.method_revision")
        } else if starts_with(p, "/next_action/dependencies/") {
            edge(30, "node.next_action.dependencies")
        } else if str_eq(p, "/paper_claim/publication_reference") {
            edge(31, "node.paper_claim.publication_reference")
        } else {
            other_edge(p)
        },
        ObjectType::ResearchRun => if str_eq(p, "/project_id") {
            edge(35, "research_run.project_id")
        } else if str_eq(p, "/parent_run_id") {
            edge(36, "research_run.parent_run_id")
        } else if starts_with(p, "/planned_inputs/revisions/") {
            edge(37, "research_run.planned_inputs.revisions")
        } else if starts_with(p, "/planned_inputs/artifacts/") {
            edge(38, "research_run.planned_inputs.artifacts")
        } else {
            other_edge(p)
        },
        _ => other_edge(p),
    }
}

/// How access policy names the edge leaving `source` at `pointer` (see `access_edge_of`).
pub fn access_edge(source: &ObjectRecord, pointer: &str) -> (r: AccessEdge)
    ensures
        (r.order as int, r.label@) == access_edge_of(source.object_type, pointer@),
{
    if starts_with(pointer, "/source/revisions/") {
        edge(0, "source.revisions")
    } else if starts_with(pointer, "/source/relations/") {
        edge(1, "source.relations")
    } else if starts_with(pointer, "/source/external_references/") {
        edge(2, "source.external_references")
    } else if starts_with(pointer, "/source/artifacts/") {
        edge(3, "source.artifacts")
    } else if starts_with(pointer, "/revision/parents/") {
        match source.object_type {
            ObjectType::Node(_) => edge(5, "revision.parents"),
            ObjectType::Relation => edge(8, "relation.revision.parents"),
            ObjectType::ThreadBinding => edge(20, "binding.revision.parents"),
            _ => edge(40, pointer),
        }
    } else {
        kind_edge(&source.object_type, pointer)
    }
}

/// The key under which access policy orders the edges of one object: rank, label,
/// target and pointer, the texts by their UTF-8 bytes.
pub open spec fn policy_key(t: ObjectType, e: ReferenceEdge) -> (int, Seq<u8>, Seq<u8>, Seq<u8>) {
    let named = access_edge_of(t, e.json_pointer@);
    (named.0, encode_utf8(named.1), encode_utf8(e.target_id@), encode_utf8(e.json_pointer@))
}

/// Lexicographic order of policy keys.
pub open spec fn key_lt(a: (int, Seq<u8>, Seq<u8>, Seq<u8>), b: (int, Seq<u8>, Seq<u8>, Seq<u8>)) -> bool {
    ||| a.0 < b.0
    ||| a.0 == b.0 && bytes_lt(a.1, b.1)
    ||| a.0 == b.0 && a.1 == b.1 && bytes_lt(a.2, b.2)
    ||| a.0 == b.0 && a.1 == b.1 && a.2 == b.2 && bytes_lt(a.3, b.3)
}

/// The edges of an object of kind `t` in access policy order.
pub open spec fn policy_sorted(t: ObjectType, v: Seq<ReferenceEdge>) -> bool {
    forall|i: int, j: int| 0 <= i < j < v.len() ==> !key_lt(policy_key(t, #[trigger] v[j]), policy_key(t, #[trigger] v[i]))
}

proof fn lemma_key_order(a: (int, Seq<u8>, Seq<u8>, Seq<u8>), b: (int, Seq<u8>, Seq<u8>, Seq<u8>), c: (int, Seq<u8>, Seq<u8>, Seq<u8>))
    ensures
        !key_lt(a, a),
        key_lt(a, b) && key_lt(b, c) ==> key_lt(a, c),
{
    lemma_bytes_lt_irreflexive(a.1);
    lemma_bytes_lt_irreflexive(a.2);
    lemma_bytes_lt_irreflexive(a.3);
    if key_lt(a, b) && key_lt(b, c) {
        if bytes_lt(a.1, b.1) && bytes_lt(b.1, c.1) {
            lemma_bytes_lt_transitive(a.1, b.1, c.1);
        }
        if bytes_lt(a.2, b.2) && bytes_lt(b.2, c.2) {
            lemma_bytes_lt_transitive(a.2, b.2, c.2);
        }
        if bytes_lt(a.3, b.3) && bytes_lt(b.3, c.3) {
            lemma_bytes_lt_transitive(a.3, b.3, c.3);
        }
    }
}

/// Whether `a` comes before `b` in the policy order of `source`'s edges.
fn policy_before(source: &ObjectRecord, a: &ReferenceEdge, b: &ReferenceEdge) -> (r: bool)
    ensures
        r == key_lt(policy_key(source.object_type, *a), policy_key(source.object_type, *b)),
{
    let ea = access_edge(source, a.json_pointer.as_str());
    let eb = access_edge(source, b.json_pointer.as_str());
    if ea.order != eb.order {
        return ea.order < eb.order;
    }
    let c = compare_bytes(ea.label.as_str().as_bytes(), eb.label.as_str().as_bytes());
    if c != 0 {
        return c < 0;
    }
    let c = compare_bytes(a.target_id.as_str().as_bytes(), b.target_id.as_str().as_bytes());
    if c != 0 {
        return c < 0;
    }
    compare_bytes(a.json_pointer.as_str().as_bytes(), b.json_pointer.as_str().as_bytes()) < 0
}

fn insert_by_policy(source: &ObjectRecord, sorted: &mut Vec<ReferenceEdge>, x: ReferenceEdge)
    requires
        policy_sorted(source.object_type, old(sorted)@),
    ensures
        policy_sorted(source.object_type, final(sorted)@),
        final(sorted)@.to_multiset() == old(sorted)@.to_multiset().insert(x),
{
    let ghost t = source.object_type;
    let ghost keys = sorted@;
    let mut p: usize = 0;
    while p < sorted.len() && !policy_before(source, &x, &sorted[p])
        invariant
            p <= sorted@.len(),
            keys == sorted@,
            t == source.object_type,
            forall|k: int| 0 <= k < p ==> !key_lt(policy_key(t, x), policy_key(t, #[trigger] keys[k])),
        decreases sorted.len() - p,
    {
        p = p + 1;
    }
    proof {
        vstd::seq_lib::to_multiset_insert(sorted@, p as int, x);
    }
    sorted.insert(p, x);
    let ghost nk = sorted@;
    assert(nk =~= keys.insert(p as int, x));
    assert forall|i: int, j: int| 0 <= i < j < nk.len() implies !key_lt(policy_key(t, #[trigger] nk[j]), policy_key(t, #[trigger] nk[i])) by {
        if i < p && j == p {
        } else if i == p && j > p {
            if key_lt(policy_key(t, nk[j]), policy_key(t, x)) {
                assert(nk[j] == keys[j - 1]);
                assert(key_lt(policy_key(t, x), policy_key(t, keys[p as int])));
                if j - 1 > p {
                    assert(!key_lt(policy_key(t, keys[j - 1]), policy_key(t, keys[p as int])));
                }
                lemma_key_order(policy_key(t, keys[j - 1]), policy_key(t, x), policy_key(t, keys[p as int]));
                lemma_key_order(policy_key(t, keys[p as int]), policy_key(t, keys[p as int]), policy_key(t, keys[p as int]));
            }
        } else if i < p && j < p {
        } else if i < p && j > p {
            assert(nk[j] == keys[j - 1]);
        } else {
            assert(nk[j] == keys[j - 1]);
            assert(nk[i] == keys[i - 1]);
        }
    }
}

/// The edges of `source` in access policy order.
pub fn policy_order(source: &ObjectRecord, edges: &[ReferenceEdge]) -> (r: Vec<ReferenceEdge>)
    ensures
        policy_sorted(source.object_type, r@),
        r@.to_multiset() == edges@.to_multiset(),
{
    let mut sorted: Vec<ReferenceEdge> = Vec::new();
    let mut k: usize = 0;
    proof {
        assert(edges@.subrange(0, 0) =~= Seq::<ReferenceEdge>::empty());
        assert(sorted@ =~= Seq::<ReferenceEdge>::empty());
    }
    while k < edges.len()
        invariant
            k <= edges@.len(),
            policy_sorted(source.object_type, sorted@),
            sorted@.to_multiset() == edges@.subrange(0, k as int).to_multiset(),
        decreases edges@.len() - k,
    {
        let x = copy_edge(&edges[k]);
        insert_by_policy(source, &mut sorted, x);
        proof {
            assert(edges@.subrange(0, k + 1) =~= edges@.subrange(0, k as int).push(edges@[k as int]));
            vstd::seq_lib::to_multiset_build(edges@.subrange(0, k as int), edges@[k as int]);
        }
        k = k + 1;
    }
    proof {
        assert(edges@.subrange(0, k as int) =~= edges@);
    }
    sorted
}

/// The stored references of the object at position `k`.
pub open spec fn stored_references(lists: Seq<Seq<ReferenceEdge>>, k: int) -> Seq<ReferenceEdge> {
    if 0 <= k < lists.len() {
        lists[k]
    } else {
        Seq::empty()
    }
}

/// The positions that resolved references point to, in order, among `n` objects.
pub open spec fn resolved_targets(refs: Seq<ReferenceEdge>, n: int) -> Seq<usize>
    decreases refs.len(),
{
    if refs.len() == 0 {
        Seq::empty()
    } else {
        let prev = resolved_targets(refs.drop_last(), n);
        match refs.last().target_ordinal {
            Some(t) => if 1 <= t <= n {
                prev.push((t - 1) as usize)
            } else {
                prev
            },
            None => prev,
        }
    }
}

proof fn lemma_resolved_below(refs: Seq<ReferenceEdge>, n: int)
    ensures
        forall|k: int| 0 <= k < resolved_targets(refs, n).len() ==> #[trigger] resolved_targets(refs, n)[k] < n,
    decreases refs.len(),
{
    if refs.len() > 0 {
        lemma_resolved_below(refs.drop_last(), n);
        let prev = resolved_targets(refs.drop_last(), n);
        let cur = resolved_targets(refs, n);
        assert forall|k: int| 0 <= k < cur.len() implies #[trigger] cur[k] < n by {
            if k < prev.len() {
                assert(cur[k] == prev[k]);
            }
        }
    }
}

/// The dependency graph of an index for access closures, and its compartment
/// vocabulary: each object's resolved reference targets in stored order and its
/// declared label over the vocabulary.
pub fn access_graph(index: &ProjectIndex) -> (r: (AccessGraph, Vec<String>))
    requires
        index.wf(),
    ensures
        r.0.wf(),
        r.0.compartment_count == r.1@.len(),
        names_ascending(r.1@),
        forall|n: Seq<char>| #[trigger] names(r.1@).contains(n) <==> in_vocabulary(index.entries(), n),
        r.0.targets@.len() == index.entries().len(),
        forall|k: int| 0 <= k < index.entries().len() ==> (#[trigger] r.0.targets@[k])@ == resolved_targets(
            stored_references(index.reference_lists(), k),
            index.entries().len() as int,
        ),
        forall|k: int| 0 <= k < index.entries().len() ==> (#[trigger] r.0.labels@[k] is Some <==> declares_label(index.entries()[k])),
        forall|k: int| 0 <= k < index.entries().len() ==> (#[trigger] r.0.labels@[k] matches Some(l)
            ==> label_matches(index.entries()[k], r.1@, l)),
{
    let objects = index.objects();
    let ghost s = index.entries();
    let n = objects.len();
    let vocabulary = compartment_vocabulary(objects);
    let mut targets: Vec<Vec<usize>> = Vec::new();
    let mut labels: Vec<Option<CompactAccess>> = Vec::new();
    let mut k: usize = 0;
    while k < n
        invariant
            index.wf(),
            s == index.entries(),
            objects@ == s,
            n == s.len(),
            k <= n,
            names_ascending(vocabulary@),
            targets@.len() == k,
            labels@.len() == k,
            forall|a: int| 0 <= a < k ==> (#[trigger] targets@[a])@ == resolved_targets(stored_references(index.reference_lists(), a), n as int),
            forall|a: int| 0 <= a < k ==> (#[trigger] labels@[a] is Some <==> declares_label(s[a])),
            forall|a: int| 0 <= a < k ==> (#[trigger] labels@[a] matches Some(l) ==> label_matches(s[a], vocabulary@, l)),
        decreases n - k,
    {
        let o = &objects[k];
        let refs = index.references_from(o.id.as_str());
        let ghost stored = stored_references(index.reference_lists(), k as int);
        proof {
            index.lemma_wf_ascending();
            crate::index::lemma_position_of(s, o.id@);
            assert(refs@ == stored);
        }
        let mut out: Vec<usize> = Vec::new();
        let mut j: usize = 0;
        while j < refs.len()
            invariant
                j <= refs@.len(),
                refs@ == stored,
                out@ == resolved_targets(refs@.subrange(0, j as int), n as int),
            decreases refs@.len() - j,
        {
            proof {
                let sub = refs@.subrange(0, j + 1);
                assert(sub.drop_last() =~= refs@.subrange(0, j as int));
                assert(sub.last() == refs@[j as int]);
            }
            match refs[j].target_ordinal {
                Some(t) => {
                    if 1 <= t && (t as usize) <= n {
                        out.push((t - 1) as usize);
                    }
                },
                None => {},
            }
            j = j + 1;
        }
        proof {
            assert(refs@.subrange(0, j as int) =~= refs@);
        }
        targets.push(out);
        let label = declared_label(o, &vocabulary);
        labels.push(label);
        k = k + 1;
    }
    let graph = AccessGraph { targets, labels, compartment_count: vocabulary.len() };
    proof {
        assert forall|a: int, b: int| 0 <= a < graph.targets@.len() && 0 <= b < graph.targets@[a]@.len()
            implies #[trigger] graph.targets@[a]@[b] < graph.targets@.len() by {
            lemma_resolved_below(stored_references(index.reference_lists(), a), n as int);
        }
    }
    (graph, vocabulary)
}

/// Object `t` declares a label that a declaration of `level` with the compartments
/// `declared` does not cover: a more restrictive level (counted only where the level
/// is what falls short) or a compartment outside `declared`.
pub open spec fn deficient(t: ObjectRecord, level: AccessLevel, declared: Set<Seq<char>>, level_valid: bool) -> bool {
    &&& declares_label(t)
    &&& {
        ||| !level_valid && level_rank(declared_level(t)->0) > level_rank(level)
        ||| exists|n: Seq<char>| #[trigger] lists_compartment(t, n) && !declared.contains(n)
    }
}

/// How many of the positions below `n` are not in `seen`.
pub open spec fn unvisited_count(seen: Set<int>, n: int) -> nat
    decreases n,
{
    if n <= 0 {
        0
    } else {
        unvisited_count(seen, n - 1) + if seen.contains(n - 1) { 0nat } else { 1nat }
    }
}

pub proof fn lemma_unvisited_drop(seen: Set<int>, p: int, n: int)
    requires
        0 <= p < n,
        !seen.contains(p),
    ensures
        unvisited_count(seen.insert(p), n) < unvisited_count(seen, n),
    decreases n,
{
    lemma_unvisited_mono(seen, p, n - 1);
    if p < n - 1 {
        lemma_unvisited_drop(seen, p, n - 1);
    }
}

pub proof fn lemma_unvisited_mono(seen: Set<int>, p: int, n: int)
    ensures
        unvisited_count(seen.insert(p), n) <= unvisited_count(seen, n),
    decreases n,
{
    if n > 0 {
        lemma_unvisited_mono(seen, p, n - 1);
    }
}

/// The hops a walk takes from an object: each reference's target, reached through `via`.
pub open spec fn hops(refs: Seq<ReferenceEdge>, via: Seq<char>) -> Seq<(Seq<char>, Seq<char>)> {
    refs.map_values(|e: ReferenceEdge| (e.target_id@, via))
}

/// Breadth-first over `queue` (target, label of the edge the walk left the start by):
/// the label through which the first deficient object is reached. Ids that are no
/// object of `s`, and objects already seen, are passed over; an object that is not
/// deficient adds its references in the order of `lists`.
pub open spec fn first_deficit(
    s: Seq<ObjectRecord>,
    lists: Seq<Seq<ReferenceEdge>>,
    level: AccessLevel,
    declared: Set<Seq<char>>,
    level_valid: bool,
    queue: Seq<(Seq<char>, Seq<char>)>,
    seen: Set<int>,
) -> Option<Seq<char>>
    decreases unvisited_count(seen, s.len() as int), queue.len(),
{
    if queue.len() == 0 {
        None
    } else {
        let id = queue[0].0;
        let via = queue[0].1;
        let rest = queue.drop_first();
        match position_of(s, id) {
            None => first_deficit(s, lists, level, declared, level_valid, rest, seen),
            Some(p) => if seen.contains(p) {
                first_deficit(s, lists, level, declared, level_valid, rest, seen)
            } else if deficient(s[p], level, declared, level_valid) {
                Some(via)
            } else {
                proof {
                    crate::index::lemma_position_of(s, id);
                    lemma_unvisited_drop(seen, p, s.len() as int);
                }
                first_deficit(s, lists, level, declared, level_valid, rest + hops(stored_references(lists, p), via), seen.insert(p))
            },
        }
    }
}

/// The first hops of the walk from `o`: its own references, each through its own label.
pub open spec fn start_hops(o: ObjectRecord, refs: Seq<ReferenceEdge>) -> Seq<(Seq<char>, Seq<char>)> {
    refs.map_values(|e: ReferenceEdge| (e.target_id@, access_edge_of(o.object_type, e.json_pointer@).1))
}

/// Whether `t` is deficient (see `deficient`).
fn is_deficient(t: &ObjectRecord, level: AccessLevel, declared: &Vec<String>, level_valid: bool) -> (r: bool)
    ensures
        r == deficient(*t, level, names(declared@), level_valid),
{
    let access = match access_value(t) {
        Some(a) => a,
        None => return false,
    };
    let t_level = match access.get("level") {
        Some(v) => match v.as_str() {
            Some(x) => match AccessLevel::parse(x) {
                Some(l) => l,
                None => return false,
            },
            None => return false,
        },
        None => return false,
    };
    let items = match compartment_list(t) {
        Some(items) => items,
        None => return false,
    };
    if !level_valid && t_level.rank() > level.rank() {
        return true;
    }
    let mut j: usize = 0;
    while j < items.len()
        invariant
            j <= items@.len(),
            compartment_items(*t) == Some(items@),
            declared_level(*t) == Some(t_level),
            forall|q: int| 0 <= q < j ==> ((#[trigger] as_text(Some(items@[q]))) matches Some(n) ==> names(declared@).contains(n)),
        decreases items@.len() - j,
    {
        match items[j].as_str() {
            Some(x) => {
                if !crate::access::contains_name(declared, x) {
                    proof {
                        assert(as_text(Some(items@[j as int])) == Some(x@));
                        assert(lists_compartment(*t, x@));
                    }
                    return true;
                }
            },
            None => {},
        }
        j = j + 1;
    }
    proof {
        assert forall|n: Seq<char>| #[trigger] lists_compartment(*t, n) implies names(declared@).contains(n) by {
            let q = choose|q: int| 0 <= q < items@.len() && as_text(Some(#[trigger] items@[q])) == Some(n);
            assert(as_text(Some(items@[q])) == Some(n));
        }
    }
    false
}

/// The lists as sequences.
pub open spec fn lists_view(lists: Seq<Vec<ReferenceEdge>>) -> Seq<Seq<ReferenceEdge>> {
    lists.map_values(|v: Vec<ReferenceEdge>| v@)
}

/// The queue as pairs of texts.
pub open spec fn queue_view(queue: Seq<(String, String)>) -> Seq<(Seq<char>, Seq<char>)> {
    queue.map_values(|q: (String, String)| (q.0@, q.1@))
}

/// The positions marked in `marks`.
pub open spec fn marked(marks: Seq<bool>) -> Set<int> {
    Set::new(|p: int| 0 <= p < marks.len() && marks[p])
}

/// The optional text, as a sequence.
pub open spec fn opt_text(t: Option<String>) -> Option<Seq<char>> {
    match t {
        Some(x) => Some(x@),
        None => None,
    }
}

/// Walks breadth-first from object `k` over the references in `lists` (see
/// `first_deficit`): the label through which the first deficient object is reached,
/// and whether the walk ran to its end; it stops early where the command budget ends.
fn deficit_edge(
    index: &ProjectIndex,
    lists: &Vec<Vec<ReferenceEdge>>,
    k: usize,
    level: AccessLevel,
    declared: &Vec<String>,
    level_valid: bool,
) -> (r: (Option<String>, bool))
    requires
        index.wf(),
        k < index.entries().len(),
        lists@.len() == index.entries().len(),
    ensures
        r.1 ==> opt_text(r.0) == first_deficit(index.entries(), lists_view(lists@), level, names(declared@), level_valid,
            start_hops(index.entries()[k as int], lists_view(lists@)[k as int]), Set::empty()),
        !r.1 ==> r.0 is None,
        lists@[k as int]@.len() == 0 ==> r.1,
{
    let objects = index.objects();
    let ghost s = index.entries();
    let ghost lv = lists_view(lists@);
    let ghost dn = names(declared@);
    let n = objects.len();
    let o = &objects[k];
    let ghost goal = first_deficit(s, lv, level, dn, level_valid, start_hops(s[k as int], lv[k as int]), Set::empty());
    let mut queue: Vec<(String, String)> = Vec::new();
    let first = &lists[k];
    let mut j: usize = 0;
    while j < first.len()
        invariant
            j <= first@.len(),
            first@ == lv[k as int],
            o == s[k as int],
            queue_view(queue@) == start_hops(*o, first@.subrange(0, j as int)),
        decreases first@.len() - j,
    {
        let e = &first[j];
        let named = access_edge(o, e.json_pointer.as_str());
        let ghost before = queue@;
        queue.push((e.target_id.clone(), named.label));
        proof {
            assert(queue_view(queue@) =~= queue_view(before).push((e.target_id@, access_edge_of(o.object_type, e.json_pointer@).1)));
            assert(first@.subrange(0, j + 1) =~= first@.subrange(0, j as int).push(first@[j as int]));
            assert(start_hops(*o, first@.subrange(0, j + 1)) =~= start_hops(*o, first@.subrange(0, j as int)).push(
                (first@[j as int].target_id@, access_edge_of(o.object_type, first@[j as int].json_pointer@).1)));
        }
        j = j + 1;
    }
    proof {
        assert(first@.subrange(0, j as int) =~= first@);
    }
    let mut seen: Vec<bool> = Vec::new();
    let mut z: usize = 0;
    while z < n
        invariant
            z <= n,
            seen@.len() == z,
            forall|x: int| 0 <= x < z ==> !#[trigger] seen@[x],
        decreases n - z,
    {
        seen.push(false);
        z = z + 1;
    }
    let mut h: usize = 0;
    proof {
        assert(marked(seen@) =~= Set::<int>::empty());
        assert(queue_view(queue@).skip(0) =~= queue_view(queue@));
        assert(queue_view(queue@).len() == queue@.len());
    }
    while h < queue.len()
        invariant
            index.wf(),
            s == index.entries(),
            objects@ == s,
            n == s.len(),
            lists@.len() == n,
            lv == lists_view(lists@),
            dn == names(declared@),
            seen@.len() == n,
            h <= queue@.len(),
            k < n,
            goal == first_deficit(s, lv, level, dn, level_valid, start_hops(s[k as int], lv[k as int]), Set::empty()),
            first_deficit(s, lv, level, dn, level_valid, queue_view(queue@).skip(h as int), marked(seen@)) == goal,
            lists@[k as int]@.len() == 0 ==> queue@.len() == 0,
        decreases unvisited_count(marked(seen@), n as int), queue@.len() - h,
    {
        if index.execution_budget().checkpoint().is_err() {
            return (None, false);
        }
        let id = queue[h].0.clone();
        let via = queue[h].1.clone();
        let ghost qv = queue_view(queue@);
        proof {
            assert(qv.skip(h as int)[0] == (id@, via@));
            assert(qv.skip(h as int).drop_first() =~= qv.skip(h + 1));
        }
        h = h + 1;
        match index.position(id.as_str()) {
            None => {},
            Some(p) => {
                proof {
                    crate::index::lemma_position_of(s, id@);
                }
                if !seen[p] {
                    if is_deficient(&objects[p], level, declared, level_valid) {
                        return (Some(via), true);
                    }
                    let ghost before_seen = marked(seen@);
                    seen.set(p, true);
                    proof {
                        assert(marked(seen@) =~= before_seen.insert(p as int));
                        lemma_unvisited_drop(before_seen, p as int, n as int);
                    }
                    let refs = &lists[p];
                    let mut q: usize = 0;
                    let ghost base = queue@;
                    while q < refs.len()
                        invariant
                            q <= refs@.len(),
                            refs@ == lv[p as int],
                            queue_view(queue@) == queue_view(base) + hops(refs@.subrange(0, q as int), via@),
                        decreases refs@.len() - q,
                    {
                        let ghost b2 = queue@;
                        queue.push((refs[q].target_id.clone(), via.clone()));
                        proof {
                            assert(queue_view(queue@) =~= queue_view(b2).push((refs@[q as int].target_id@, via@)));
                            assert(refs@.subrange(0, q + 1) =~= refs@.subrange(0, q as int).push(refs@[q as int]));
                            assert(hops(refs@.subrange(0, q + 1), via@) =~= hops(refs@.subrange(0, q as int), via@).push((refs@[q as int].target_id@, via@)));
                        }
                        q = q + 1;
                    }
                    proof {
                        assert(refs@.subrange(0, q as int) =~= refs@);
                        assert(stored_references(lv, p as int) == refs@);
                        assert(queue_view(queue@).skip(h as int) =~= qv.skip(h as int) + hops(refs@, via@));
                    }
                } else {
                    proof {
                        assert(marked(seen@).contains(p as int));
                    }
                }
            },
        }
    }
    proof {
        assert(queue_view(queue@).skip(h as int) =~= Seq::<(Seq<char>, Seq<char>)>::empty());
    }
    (None, true)
}

/// `lists` holds, for each object of the index, its stored references in policy order.
pub open spec fn policy_lists_of(index: ProjectIndex, lists: Seq<Seq<ReferenceEdge>>) -> bool {
    &&& lists.len() == index.entries().len()
    &&& forall|k: int| 0 <= k < lists.len() ==> {
        &&& policy_sorted(index.entries()[k].object_type, #[trigger] lists[k])
        &&& lists[k].to_multiset() == stored_references(index.reference_lists(), k).to_multiset()
    }
}

/// Every object's stored references in policy order.
fn policy_lists(index: &ProjectIndex) -> (r: Vec<Vec<ReferenceEdge>>)
    requires
        index.wf(),
    ensures
        policy_lists_of(*index, lists_view(r@)),
{
    let objects = index.objects();
    let ghost s = index.entries();
    let mut out: Vec<Vec<ReferenceEdge>> = Vec::new();
    let mut k: usize = 0;
    while k < objects.len()
        invariant
            index.wf(),
            objects@ == s,
            s == index.entries(),
            k <= s.len(),
            out@.len() == k,
            forall|a: int| 0 <= a < k ==> {
                &&& policy_sorted(s[a].object_type, (#[trigger] out@[a])@)
                &&& out@[a]@.to_multiset() == stored_references(index.reference_lists(), a).to_multiset()
            },
        decreases s.len() - k,
    {
        let o = &objects[k];
        let refs = index.references_from(o.id.as_str());
        proof {
            index.lemma_wf_ascending();
            crate::index::lemma_position_of(s, o.id@);
            assert(refs@ == stored_references(index.reference_lists(), k as int));
        }
        out.push(policy_order(o, refs));
        k = k + 1;
    }
    proof {
        assert(lists_view(out@).len() == s.len());
        assert forall|a: int| 0 <= a < lists_view(out@).len() implies {
            &&& policy_sorted(s[a].object_type, #[trigger] lists_view(out@)[a])
            &&& lists_view(out@)[a].to_multiset() == stored_references(index.reference_lists(), a).to_multiset()
        } by {
            assert(lists_view(out@)[a] == out@[a]@);
        }
    }
    out
}

/// The names at the positions of `c` in `vocabulary`.
pub open spec fn compartment_names(vocabulary: Seq<String>, c: CompactCompartments) -> Set<Seq<char>> {
    Set::new(|n: Seq<char>| exists|i: int| c.has(i) && (#[trigger] vocabulary[i])@ == n)
}

/// The names of the first `m` vocabulary positions that `required` holds and
/// `declared` does not, in vocabulary order.
pub open spec fn missing_names(vocabulary: Seq<String>, required: CompactCompartments, declared: CompactCompartments, m: int) -> Seq<Seq<char>>
    decreases m,
{
    if m <= 0 {
        Seq::empty()
    } else {
        let prev = missing_names(vocabulary, required, declared, m - 1);
        if required.has(m - 1) && !declared.has(m - 1) {
            prev.push(vocabulary[m - 1]@)
        } else {
            prev
        }
    }
}

/// How `{:?}` writes a string: quoted, with escapes.
pub uninterp spec fn debug_quoted(s: Seq<char>) -> Seq<char>;

/// `format!("{:?}", s)` for a `&str`: the string quoted as Rust's `Debug` writes it.
/// The text depends on the string alone.
#[verifier::external_body]
fn debug_text(s: &str) -> (r: String)
    ensures
        r@ == debug_quoted(s@),
{
    format!("{:?}", s)
}

/// The items of a list of names as `{:?}` writes them, comma separated.
pub open spec fn debug_items(names: Seq<Seq<char>>) -> Seq<char>
    decreases names.len(),
{
    if names.len() == 0 {
        Seq::empty()
    } else if names.len() == 1 {
        debug_quoted(names[0])
    } else {
        debug_items(names.drop_last()) + ", "@ + debug_quoted(names.last())
    }
}

/// A level as `{:?}` writes it.
pub open spec fn level_debug(l: AccessLevel) -> Seq<char> {
    match l {
        AccessLevel::Public => "Public"@,
        AccessLevel::Internal => "Internal"@,
        AccessLevel::Restricted => "Restricted"@,
        AccessLevel::Exclusive => "Exclusive"@,
    }
}

/// The message of an access violation: the required level and the missing compartments.
pub open spec fn violation_message(required: AccessLevel, missing: Seq<Seq<char>>) -> Seq<char> {
    "declared access does not dominate dependency floor; required level "@ + level_debug(required)
        + ", missing compartments ["@ + debug_items(missing) + "]"@
}

fn violation_text(required: AccessLevel, missing: &Vec<String>) -> (r: String)
    ensures
        r@ == violation_message(required, missing@.map_values(|x: String| x@)),
{
    proof {
        reveal_strlit("Public");
        reveal_strlit("Internal");
        reveal_strlit("Restricted");
        reveal_strlit("Exclusive");
    }
    let ghost mv = missing@.map_values(|x: String| x@);
    let mut items = String::new();
    let mut i: usize = 0;
    proof {
        assert(mv.subrange(0, 0) =~= Seq::<Seq<char>>::empty());
    }
    while i < missing.len()
        invariant
            i <= missing@.len(),
            mv == missing@.map_values(|x: String| x@),
            items@ == debug_items(mv.subrange(0, i as int)),
        decreases missing@.len() - i,
    {
        let quoted = debug_text(missing[i].as_str());
        proof {
            let t = mv.subrange(0, i + 1);
            assert(t.drop_last() =~= mv.subrange(0, i as int));
            assert(t.last() == missing@[i as int]@);
            assert(t.len() == 1 ==> t[0] == missing@[i as int]@);
        }
        if i > 0 {
            string_push_str(&mut items, ", ");
        }
        string_push_str(&mut items, quoted.as_str());
        i = i + 1;
    }
    proof {
        assert(mv.subrange(0, i as int) =~= mv);
    }
    let mut m = String::new();
    string_push_str(&mut m, "declared access does not dominate dependency floor; required level ");
    let level_name = match required {
        AccessLevel::Public => "Public",
        AccessLevel::Internal => "Internal",
        AccessLevel::Restricted => "Restricted",
        AccessLevel::Exclusive => "Exclusive",
    };
    string_push_str(&mut m, level_name);
    string_push_str(&mut m, ", missing compartments [");
    string_push_str(&mut m, items.as_str());
    string_push_str(&mut m, "]");
    m
}

/// The names `required` holds and `declared` does not, in vocabulary order.
fn missing_compartments(vocabulary: &Vec<String>, required: &CompactCompartments, declared: &CompactCompartments) -> (r: Vec<String>)
    ensures
        r@.map_values(|x: String| x@) == missing_names(vocabulary@, *required, *declared, vocabulary@.len() as int),
{
    let mut out: Vec<String> = Vec::new();
    let mut i: usize = 0;
    while i < vocabulary.len()
        invariant
            i <= vocabulary@.len(),
            out@.map_values(|x: String| x@) == missing_names(vocabulary@, *required, *declared, i as int),
        decreases vocabulary@.len() - i,
    {
        if required.contains(i) && !declared.contains(i) {
            let ghost before = out@;
            out.push(vocabulary[i].clone());
            proof {
                assert(out@.map_values(|x: String| x@) =~= before.map_values(|x: String| x@).push(vocabulary@[i as int]@));
            }
        }
        i = i + 1;
    }
    out
}

/// The diagnostic owed for an access value whose compartments are out of order.
pub open spec fn unsorted_owed(o: ObjectRecord) -> (Seq<char>, Seq<char>, Seq<char>, ProjectPath, Seq<char>) {
    (
        "RP_E_ACCESS_COMPARTMENTS_UNSORTED"@,
        "access_compartment_normalization"@,
        "access compartments must be sorted lexicographically"@,
        o.source_file,
        "/access/compartments"@,
    )
}

/// The diagnostic owed where the declaration of object `k` does not dominate its
/// dependency floor: coded by the edge through which the first deficient dependency
/// is reached, or, where the walk was cut short, by the generic code.
pub open spec fn violation_owed(
    s: Seq<ObjectRecord>,
    lists: Seq<Seq<ReferenceEdge>>,
    vocabulary: Seq<String>,
    k: int,
    r: StoredAccessReport,
) -> Seq<(Seq<char>, Seq<char>, Seq<char>, ProjectPath, Seq<char>)> {
    if r.valid {
        Seq::empty()
    } else {
        let level_valid = level_rank(r.declared_level) >= level_rank(r.required_level);
        let found = first_deficit(s, lists, r.declared_level, compartment_names(vocabulary, r.declared_compartments),
            level_valid, start_hops(s[k], lists[k]), Set::empty());
        let message = violation_message(r.required_level,
            missing_names(vocabulary, r.required_compartments, r.declared_compartments, vocabulary.len() as int));
        seq![
            (deficit_code(found, level_valid).0, deficit_code(found, level_valid).1, message, s[k].source_file, "/access"@),
            (generic_code(level_valid).0, generic_code(level_valid).1, message, s[k].source_file, "/access"@),
        ]
    }
}

/// What the access check owes for object `k`: where it has a report, the ordering
/// diagnostic, then one violation diagnostic.
pub open spec fn object_owed(
    s: Seq<ObjectRecord>,
    lists: Seq<Seq<ReferenceEdge>>,
    vocabulary: Seq<String>,
    k: int,
    r: Option<StoredAccessReport>,
) -> Seq<(Seq<char>, Seq<char>, Seq<char>, ProjectPath, Seq<char>)> {
    match r {
        None => Seq::empty(),
        Some(rep) => owed_if(!compartments_sorted(s[k].value), unsorted_owed(s[k])) + violation_owed(s, lists, vocabulary, k, rep),
    }
}

/// What the access check owes for the first `m` objects, in order.
pub open spec fn access_owed(
    s: Seq<ObjectRecord>,
    lists: Seq<Seq<ReferenceEdge>>,
    vocabulary: Seq<String>,
    reports: Seq<Option<StoredAccessReport>>,
    m: int,
) -> Seq<(Seq<char>, Seq<char>, Seq<char>, ProjectPath, Seq<char>)>
    decreases m,
{
    if m <= 0 {
        Seq::empty()
    } else {
        access_owed(s, lists, vocabulary, reports, m - 1) + object_owed(s, lists, vocabulary, m - 1, reports[m - 1])
    }
}

proof fn lemma_reported_either(
    made: Seq<Finding>,
    a: (Seq<char>, Seq<char>, Seq<char>, ProjectPath, Seq<char>),
    b: (Seq<char>, Seq<char>, Seq<char>, ProjectPath, Seq<char>),
    chosen: Seq<(Seq<char>, Seq<char>, Seq<char>, ProjectPath, Seq<char>)>,
)
    requires
        chosen == seq![a] || chosen == seq![b],
        reported_from(made, chosen),
    ensures
        reported_from(made, seq![a, b]),
{
    if chosen == seq![a] {
        lemma_reported_extend(made, seq![a], seq![b]);
        assert(seq![a] + seq![b] =~= seq![a, b]);
    } else {
        lemma_reported_empty(seq![a]);
        lemma_reported_concat(Seq::empty(), seq![a], made, seq![b]);
        assert(Seq::<Finding>::empty() + made =~= made);
        assert(seq![a] + seq![b] =~= seq![a, b]);
    }
}

/// The resolved references of each object of the index, by position.
pub open spec fn dependency_graph(index: ProjectIndex) -> Seq<Seq<usize>> {
    Seq::new(
        index.entries().len(),
        |k: int| resolved_targets(stored_references(index.reference_lists(), k), index.entries().len() as int),
    )
}

/// Report `r` of object `k` carries the floor of everything `k` depends on (every
/// object reachable from it, itself excluded): their number, the most restrictive
/// level among their labels (`Public` when none) and the union of their compartments.
pub open spec fn floor_exact(index: ProjectIndex, vocabulary: Seq<String>, k: int, r: StoredAccessReport) -> bool {
    let s = index.entries();
    let deps = crate::access::dependency_set(dependency_graph(index), k);
    &&& r.dependency_count == deps.len()
    &&& forall|t: int| #[trigger] deps.contains(t) && declares_label(s[t])
        ==> level_rank(declared_level(s[t])->0) <= level_rank(r.required_level)
    &&& (r.required_level == AccessLevel::Public || exists|t: int| #[trigger] deps.contains(t)
        && declares_label(s[t]) && declared_level(s[t]) == Some(r.required_level))
    &&& forall|i: int| #[trigger] r.required_compartments.has(i) <==> exists|t: int| #[trigger] deps.contains(t)
        && declares_label(s[t]) && 0 <= i < vocabulary.len() && i <= u32::MAX && lists_compartment(s[t], vocabulary[i]@)
}

/// The floor the dependency walk reports, read back over the index.
proof fn lemma_floor_exact(index: ProjectIndex, graph: AccessGraph, vocabulary: Seq<String>, k: int, rep: StoredAccessReport)
    requires
        graph.wf(),
        graph.adj() == dependency_graph(index),
        graph.targets@.len() == index.entries().len(),
        forall|a: int| 0 <= a < index.entries().len() ==> (#[trigger] graph.labels@[a] is Some <==> declares_label(index.entries()[a])),
        forall|a: int| 0 <= a < index.entries().len() ==> (#[trigger] graph.labels@[a] matches Some(l)
            ==> label_matches(index.entries()[a], vocabulary, l)),
        ({
            let deps = crate::access::dependency_set(graph.adj(), k);
            &&& rep.dependency_count == deps.len()
            &&& forall|t: int| #[trigger] deps.contains(t) ==> (graph.labels@[t] matches Some(l)
                ==> level_rank(l.level) <= level_rank(rep.required_level))
            &&& (rep.required_level == AccessLevel::Public || exists|t: int| #[trigger] deps.contains(t)
                && (graph.labels@[t] matches Some(l) && l.level == rep.required_level))
            &&& forall|i: int| #[trigger] rep.required_compartments.has(i) <==> exists|t: int|
                #[trigger] deps.contains(t) && crate::access::label_has(graph.labels@, t, i)
        }),
    ensures
        floor_exact(index, vocabulary, k, rep),
{
    let s = index.entries();
    let adj = graph.adj();
    let deps = crate::access::dependency_set(adj, k);
    assert(crate::graph::adj_closed(adj)) by {
        assert forall|a: int, j: int| 0 <= a < adj.len() && 0 <= j < adj[a].len() implies #[trigger] adj[a][j] < adj.len() by {
            assert(adj[a] == graph.targets@[a]@);
        }
    }
    assert forall|t: int| #[trigger] deps.contains(t) implies 0 <= t < s.len() by {
        let n = choose|n: nat| n >= 1 && #[trigger] crate::graph::reach_within(adj, k, t, n);
        crate::graph::lemma_reach_in_range(adj, k, t, n);
    }
    assert forall|t: int| #[trigger] deps.contains(t) && declares_label(s[t])
        implies level_rank(declared_level(s[t])->0) <= level_rank(rep.required_level) by {
        assert(graph.labels@[t] is Some);
    }
    if rep.required_level != AccessLevel::Public {
        let t = choose|t: int| #[trigger] deps.contains(t) && (graph.labels@[t] matches Some(l) && l.level == rep.required_level);
        assert(declares_label(s[t]) && declared_level(s[t]) == Some(rep.required_level));
    }
    assert forall|i: int| #[trigger] rep.required_compartments.has(i) <==> exists|t: int| #[trigger] deps.contains(t)
        && declares_label(s[t]) && 0 <= i < vocabulary.len() && i <= u32::MAX && lists_compartment(s[t], vocabulary[i]@) by {
        if rep.required_compartments.has(i) {
            let t = choose|t: int| #[trigger] deps.contains(t) && crate::access::label_has(graph.labels@, t, i);
            let l = graph.labels@[t]->0;
            assert(l.compartments.has(i));
        }
        if exists|t: int| #[trigger] deps.contains(t) && declares_label(s[t]) && 0 <= i < vocabulary.len() && i <= u32::MAX
            && lists_compartment(s[t], vocabulary[i]@) {
            let t = choose|t: int| #[trigger] deps.contains(t) && declares_label(s[t]) && 0 <= i < vocabulary.len()
                && i <= u32::MAX && lists_compartment(s[t], vocabulary[i]@);
            let l = graph.labels@[t]->0;
            assert(l.compartments.has(i));
            assert(crate::access::label_has(graph.labels@, t, i));
        }
    }
}

/// Assesses object `k` and reports what its access value owes.
fn assess_object(
    index: &ProjectIndex,
    graph: &AccessGraph,
    store: &AccessStore,
    lists: &Vec<Vec<ReferenceEdge>>,
    k: usize,
    findings: &mut Findings,
) -> (out: (Option<StoredAccessReport>, bool))
    requires
        index.wf(),
        graph.wf(),
        graph.targets@.len() == index.entries().len(),
        graph.compartment_count == store.compartment_names@.len(),
        graph.adj() == dependency_graph(*index),
        forall|a: int| 0 <= a < index.entries().len() ==> (#[trigger] graph.labels@[a] is Some <==> declares_label(index.entries()[a])),
        forall|a: int| 0 <= a < index.entries().len() ==> (#[trigger] graph.labels@[a] matches Some(l)
            ==> label_matches(index.entries()[a], store.compartment_names@, l)),
        lists@.len() == index.entries().len(),
        k < index.entries().len(),
        old(findings).wf(),
    ensures
        out.0 is None <==> graph.labels@[k as int] is None,
        out.1 ==> (out.0 matches Some(rep) ==> floor_exact(*index, store.compartment_names@, k as int, rep)),
        out.0 matches Some(rep) ==> {
            let declared = graph.labels@[k as int]->0;
            &&& assessed(rep)
            &&& rep.declared_level == declared.level
            &&& forall|i: int| #[trigger] rep.declared_compartments.has(i) <==> declared.compartments.has(i)
            &&& label_fits(rep.declared_compartments, graph.compartment_count as int)
            &&& label_fits(rep.required_compartments, graph.compartment_count as int)
            &&& label_fits(rep.effective_compartments, graph.compartment_count as int)
        },
        final(findings).wf(),
        final(findings).shares_allowance(&*old(findings)),
        final(findings).retained().len() >= old(findings).retained().len(),
        final(findings).retained().take(old(findings).retained().len() as int) == old(findings).retained(),
        reported_from(final(findings).retained().skip(old(findings).retained().len() as int),
            object_owed(index.entries(), lists_view(lists@), store.compartment_names@, k as int, out.0)),
{
    let ghost s = index.entries();
    let ghost start = findings.retained();
    proof {
        crate::findings::lemma_shares_allowance(&*findings, &*findings, &*findings);
        assert(findings.retained().skip(start.len() as int) =~= Seq::<Finding>::empty());
        assert(findings.retained().take(start.len() as int) =~= start);
        lemma_reported_empty(Seq::empty());
    }
    let (rep, complete) = match graph.assess(k, index.execution_budget()) {
        Some(x) => x,
        None => return (None, true),
    };
    proof {
        if complete {
            lemma_floor_exact(*index, *graph, store.compartment_names@, k as int, rep);
        }
    }
    let objects = index.objects();
    let o = &objects[k];
    let ghost w1 = owed_if(!compartments_sorted(o.value), unsorted_owed(*o));
    let unsorted = if compartments_are_sorted(&o.value) {
        None
    } else {
        Some(Finding::new(
            "RP_E_ACCESS_COMPARTMENTS_UNSORTED",
            "access_compartment_normalization",
            Severity::Error,
            "access compartments must be sorted lexicographically",
            Some(o.source_file.clone_path()),
            "/access/compartments",
        ))
    };
    let ghost a = findings.retained();
    report_opt(findings, unsorted, Ghost(w1));
    let ghost b = findings.retained();
    let ghost f1 = *findings;
    let ghost w2 = violation_owed(s, lists_view(lists@), store.compartment_names@, k as int, rep);
    if !rep.valid {
        let declared = store.label(rep.declared_level, &rep.declared_compartments);
        let level_valid = rep.declared_level.dominates(rep.required_level);
        proof {
            assert(names(declared.compartments@) =~= compartment_names(store.compartment_names@, rep.declared_compartments));
        }
        let (found, complete) = deficit_edge(index, lists, k, rep.declared_level, &declared.compartments, level_valid);
        let codes = match &found {
            Some(e) => deficit_access_code(Some(e.as_str()), level_valid),
            None => deficit_access_code(None, level_valid),
        };
        let missing = missing_compartments(&store.compartment_names, &rep.required_compartments, &rep.declared_compartments);
        let message = violation_text(rep.required_level, &missing);
        let f = Finding::new(codes.0, codes.1, Severity::Error, message.as_str(), Some(o.source_file.clone_path()), "/access");
        let ghost chosen = if complete { seq![w2[0]] } else { seq![w2[1]] };
        proof {
            assert(is_owed(f, chosen[0]));
        }
        report_opt(findings, Some(f), Ghost(chosen));
        proof {
            lemma_reported_either(findings.retained().skip(b.len() as int), w2[0], w2[1], chosen);
            assert(w2 =~= seq![w2[0], w2[1]]);
        }
    } else {
        proof {
            assert(findings.retained().skip(b.len() as int) =~= Seq::<Finding>::empty());
            assert(findings.retained().take(b.len() as int) =~= b);
            lemma_reported_empty(w2);
        }
    }
    proof {
        lemma_reported_steps(a, b, findings.retained(), w1, w2);
        crate::findings::lemma_shares_allowance(&*findings, &f1, &*old(findings));
    }
    (Some(rep), complete)
}

/// Exactly the objects before position `m` that declare a label have reports.
pub open spec fn reports_through(reports: Seq<Option<StoredAccessReport>>, s: Seq<ObjectRecord>, m: int) -> bool {
    &&& 0 <= m <= s.len()
    &&& forall|k: int| 0 <= k < s.len() ==> (#[trigger] reports[k] is Some <==> (k < m && declares_label(s[k])))
}

proof fn lemma_owed_prefix(
    s: Seq<ObjectRecord>,
    lists: Seq<Seq<ReferenceEdge>>,
    vocabulary: Seq<String>,
    r1: Seq<Option<StoredAccessReport>>,
    r2: Seq<Option<StoredAccessReport>>,
    m: int,
)
    requires
        forall|i: int| 0 <= i < m ==> r1[i] == r2[i],
    ensures
        access_owed(s, lists, vocabulary, r1, m) == access_owed(s, lists, vocabulary, r2, m),
    decreases m,
{
    if m > 0 {
        lemma_owed_prefix(s, lists, vocabulary, r1, r2, m - 1);
    }
}

proof fn lemma_owed_none_tail(
    s: Seq<ObjectRecord>,
    lists: Seq<Seq<ReferenceEdge>>,
    vocabulary: Seq<String>,
    r: Seq<Option<StoredAccessReport>>,
    m: int,
    n: int,
)
    requires
        0 <= m <= n,
        forall|i: int| m <= i < n ==> r[i] is None,
    ensures
        access_owed(s, lists, vocabulary, r, n) == access_owed(s, lists, vocabulary, r, m),
    decreases n - m,
{
    if n > m {
        lemma_owed_none_tail(s, lists, vocabulary, r, m, n - 1);
        assert(object_owed(s, lists, vocabulary, n - 1, r[n - 1]) =~= Seq::empty());
        assert(access_owed(s, lists, vocabulary, r, n) =~= access_owed(s, lists, vocabulary, r, n - 1));
    }
}

/// The access reports of a project: for each object in index order that declares a
/// label, its declaration, dependency floor and effective label over the project's
/// compartment vocabulary, with the diagnostics its access value owes. Objects are
/// taken in order while the run is neither stopped nor out of allowance; those not
/// reached get no report.
pub fn compute_access(index: &ProjectIndex, findings: &mut Findings) -> (store: AccessStore)
    requires
        index.wf(),
        old(findings).wf(),
    ensures
        store.wf(),
        final(findings).wf(),
        final(findings).shares_allowance(&*old(findings)),
        final(findings).retained().len() >= old(findings).retained().len(),
        final(findings).retained().take(old(findings).retained().len() as int) == old(findings).retained(),
        names_ascending(store.compartment_names@),
        forall|n: Seq<char>| #[trigger] names(store.compartment_names@).contains(n) <==> in_vocabulary(index.entries(), n),
        store.reports@.len() == index.entries().len(),
        exists|m: int| #[trigger] reports_through(store.reports@, index.entries(), m) && forall|a: int| 0 <= a < m - 1
            ==> (#[trigger] store.reports@[a] matches Some(r) ==> floor_exact(*index, store.compartment_names@, a, r)),
        forall|k: int| 0 <= k < store.reports@.len() ==> (#[trigger] store.reports@[k] matches Some(r) ==> {
            &&& assessed(r)
            &&& declared_level(index.entries()[k]) == Some(r.declared_level)
            &&& forall|i: int| #[trigger] r.declared_compartments.has(i) <==> (0 <= i < store.compartment_names@.len()
                && i <= u32::MAX && lists_compartment(index.entries()[k], store.compartment_names@[i]@))
        }),
        exists|lists: Seq<Seq<ReferenceEdge>>| policy_lists_of(*index, lists) && #[trigger] reported_from(
            final(findings).retained().skip(old(findings).retained().len() as int),
            access_owed(index.entries(), lists, store.compartment_names@, store.reports@, index.entries().len() as int),
        ),
{
    let ghost s = index.entries();
    let ghost base = findings.retained();
    let (graph, vocabulary) = access_graph(index);
    let lists = policy_lists(index);
    let ghost lv = lists_view(lists@);
    let ghost v = vocabulary@;
    let n = index.len();
    let mut store = AccessStore { compartment_names: vocabulary, reports: Vec::new() };
    let mut k: usize = 0;
    proof {
        assert(graph.adj() =~= dependency_graph(*index));
        crate::findings::lemma_shares_allowance(&*findings, &*findings, &*findings);
        assert(findings.retained().skip(base.len() as int) =~= Seq::<Finding>::empty());
        assert(findings.retained().take(base.len() as int) =~= base);
        lemma_reported_empty(Seq::empty());
    }
    while k < n
        invariant_except_break
            k > 0 ==> (store.reports@[k - 1] matches Some(r) ==> floor_exact(*index, v, k - 1, r)),
        invariant
            index.wf(),
            s == index.entries(),
            n == s.len(),
            k <= n,
            graph.wf(),
            graph.targets@.len() == n,
            graph.compartment_count == v.len(),
            forall|a: int| 0 <= a < n ==> (#[trigger] graph.labels@[a] is Some <==> declares_label(s[a])),
            forall|a: int| 0 <= a < n ==> (#[trigger] graph.labels@[a] matches Some(l) ==> label_matches(s[a], v, l)),
            lists@.len() == n,
            lv == lists_view(lists@),
            policy_lists_of(*index, lv),
            store.compartment_names@ == v,
            store.reports@.len() == k,
            forall|a: int| 0 <= a < k ==> (#[trigger] store.reports@[a] is Some <==> declares_label(s[a])),
            forall|a: int| 0 <= a < k ==> (#[trigger] store.reports@[a] matches Some(r) ==> {
                &&& assessed(r)
                &&& declared_level(s[a]) == Some(r.declared_level)
                &&& forall|i: int| #[trigger] r.declared_compartments.has(i) <==> (0 <= i < v.len() && i <= u32::MAX
                    && lists_compartment(s[a], v[i]@))
                &&& label_fits(r.declared_compartments, v.len() as int)
                &&& label_fits(r.required_compartments, v.len() as int)
                &&& label_fits(r.effective_compartments, v.len() as int)
            }),
            findings.wf(),
            findings.shares_allowance(&*old(findings)),
            base == old(findings).retained(),
            findings.retained().len() >= base.len(),
            findings.retained().take(base.len() as int) == base,
            reported_from(findings.retained().skip(base.len() as int), access_owed(s, lv, v, store.reports@, k as int)),
            graph.adj() == dependency_graph(*index),
            forall|a: int| 0 <= a < k - 1 ==> (#[trigger] store.reports@[a] matches Some(r)
                ==> floor_exact(*index, v, a, r)),
        decreases n - k,
    {
        if findings.cancelled() {
            break;
        }
        let ghost before = findings.retained();
        let ghost prior = *findings;
        let ghost reports0 = store.reports@;
        let (r, complete) = assess_object(index, &graph, &store, &lists, k, findings);
        proof {
            crate::findings::lemma_shares_allowance(&*findings, &prior, &*old(findings));
        }
        store.reports.push(r);
        proof {
            lemma_owed_prefix(s, lv, v, reports0, store.reports@, k as int);
            assert(access_owed(s, lv, v, store.reports@, k + 1) == access_owed(s, lv, v, reports0, k as int)
                + object_owed(s, lv, v, k as int, r));
            lemma_reported_steps(base, before, findings.retained(), access_owed(s, lv, v, reports0, k as int),
                object_owed(s, lv, v, k as int, r));
            assert forall|a: int| 0 <= a < k + 1 implies (#[trigger] store.reports@[a] matches Some(x) ==> {
                &&& assessed(x)
                &&& declared_level(s[a]) == Some(x.declared_level)
                &&& forall|i: int| #[trigger] x.declared_compartments.has(i) <==> (0 <= i < v.len() && i <= u32::MAX
                    && lists_compartment(s[a], v[i]@))
                &&& label_fits(x.declared_compartments, v.len() as int)
                &&& label_fits(x.required_compartments, v.len() as int)
                &&& label_fits(x.effective_compartments, v.len() as int)
            }) by {
                if a < k {
                    assert(store.reports@[a] == reports0[a]);
                }
            }
        }
        proof {
            assert forall|a: int| 0 <= a < k + 1 - 1 implies (#[trigger] store.reports@[a] matches Some(x)
                ==> floor_exact(*index, v, a, x)) by {
                assert(store.reports@[a] == reports0[a]);
            }
        }
        k = k + 1;
        if !complete {
            break;
        }
    }
    let m = k;
    let ghost filled = store.reports@;
    while store.reports.len() < n
        invariant
            m <= store.reports@.len() <= n,
            store.compartment_names@ == v,
            forall|a: int| 0 <= a < m ==> store.reports@[a] == filled[a],
            forall|a: int| m <= a < store.reports@.len() ==> store.reports@[a] is None,
        decreases n - store.reports@.len(),
    {
        store.reports.push(None);
    }
    proof {
        lemma_owed_prefix(s, lv, v, filled, store.reports@, m as int);
        lemma_owed_none_tail(s, lv, v, store.reports@, m as int, n as int);
        assert forall|a: int| 0 <= a < n implies (#[trigger] store.reports@[a] is Some <==> (a < m && declares_label(s[a]))) by {
            if a < m {
                assert(store.reports@[a] == filled[a]);
            }
        }
        assert(reports_through(store.reports@, s, m as int));
        assert forall|a: int| 0 <= a < m - 1 implies (#[trigger] store.reports@[a] matches Some(x)
            ==> floor_exact(*index, v, a, x)) by {
            assert(store.reports@[a] == filled[a]);
        }
        assert forall|a: int| 0 <= a < store.reports@.len() implies (#[trigger] store.reports@[a] matches Some(x) ==> {
            &&& assessed(x)
            &&& declared_level(s[a]) == Some(x.declared_level)
            &&& forall|i: int| #[trigger] x.declared_compartments.has(i) <==> (0 <= i < v.len() && i <= u32::MAX
                && lists_compartment(s[a], v[i]@))
        }) by {
            if a < m {
                assert(store.reports@[a] == filled[a]);
            }
        }
        assert forall|o: int| 0 <= o < store.reports@.len() implies (#[trigger] store.reports@[o] matches Some(x) ==> {
            &&& label_fits(x.declared_compartments, store.compartment_names@.len() as int)
            &&& label_fits(x.required_compartments, store.compartment_names@.len() as int)
            &&& label_fits(x.effective_compartments, store.compartment_names@.len() as int)
        }) by {
            if o < m {
                assert(store.reports@[o] == filled[o]);
            }
        }
        assert(policy_lists_of(*index, lv) && reported_from(findings.retained().skip(base.len() as int),
            access_owed(s, lv, store.compartment_names@, store.reports@, s.len() as int)));
    }
    store
}

/// How many objects of `s` have ids outside `visited`.
pub open spec fn unvisited_ids(s: Seq<ObjectRecord>, visited: Set<Seq<char>>, n: int) -> nat
    decreases n,
{
    if n <= 0 {
        0
    } else {
        unvisited_ids(s, visited, n - 1) + if visited.contains(s[n - 1].id@) { 0nat } else { 1nat }
    }
}

pub proof fn lemma_unvisited_ids(s: Seq<ObjectRecord>, visited: Set<Seq<char>>, t: Seq<char>, n: int)
    ensures
        unvisited_ids(s, visited.insert(t), n) <= unvisited_ids(s, visited, n),
        (exists|q: int| 0 <= q < n && s[q].id@ == t) && !visited.contains(t) ==> unvisited_ids(s, visited.insert(t), n)
            < unvisited_ids(s, visited, n),
    decreases n,
{
    if n > 0 {
        lemma_unvisited_ids(s, visited, t, n - 1);
        if (exists|q: int| 0 <= q < n && s[q].id@ == t) && !visited.contains(t) {
            if !(exists|q: int| 0 <= q < n - 1 && s[q].id@ == t) {
                let q = choose|q: int| 0 <= q < n && s[q].id@ == t;
                assert(q == n - 1);
            }
        }
    }
}

/// One explained step: source id, edge label, target id.
pub open spec fn step_view(d: DependencyStep) -> (Seq<char>, Seq<char>, Seq<char>) {
    (d.from_id@, d.edge@, d.to_id@)
}

/// The first `n` references of `src` taken by the explanation walk from `start`: each
/// target that is neither `start` nor already visited is marked visited and, where it
/// is an object, explained and queued. Gives the steps, the visited ids and the queued ids.
pub open spec fn explain_refs(
    s: Seq<ObjectRecord>,
    start: Seq<char>,
    src: ObjectRecord,
    refs: Seq<ReferenceEdge>,
    visited: Set<Seq<char>>,
    n: int,
) -> (Seq<(Seq<char>, Seq<char>, Seq<char>)>, Set<Seq<char>>, Seq<Seq<char>>)
    decreases n,
{
    if n <= 0 {
        (Seq::empty(), visited, Seq::empty())
    } else {
        let prev = explain_refs(s, start, src, refs, visited, n - 1);
        let t = refs[n - 1].target_id@;
        if t == start || prev.1.contains(t) {
            prev
        } else if position_of(s, t) is None {
            (prev.0, prev.1.insert(t), prev.2)
        } else {
            (prev.0.push((src.id@, access_edge_of(src.object_type, refs[n - 1].json_pointer@).1, t)), prev.1.insert(t), prev.2.push(t))
        }
    }
}

pub proof fn lemma_explain_refs_count(
    s: Seq<ObjectRecord>,
    start: Seq<char>,
    src: ObjectRecord,
    refs: Seq<ReferenceEdge>,
    visited: Set<Seq<char>>,
    n: int,
)
    ensures
        unvisited_ids(s, explain_refs(s, start, src, refs, visited, n).1, s.len() as int)
            + explain_refs(s, start, src, refs, visited, n).2.len() <= unvisited_ids(s, visited, s.len() as int),
    decreases n,
{
    if n > 0 {
        lemma_explain_refs_count(s, start, src, refs, visited, n - 1);
        let prev = explain_refs(s, start, src, refs, visited, n - 1);
        let t = refs[n - 1].target_id@;
        lemma_unvisited_ids(s, prev.1, t, s.len() as int);
        crate::index::lemma_position_of(s, t);
    }
}

/// The explanation walk breadth-first over the queued sources: the steps each source's
/// references add, in the order of `lists`.
pub open spec fn explain(
    s: Seq<ObjectRecord>,
    lists: Seq<Seq<ReferenceEdge>>,
    start: Seq<char>,
    queue: Seq<Seq<char>>,
    visited: Set<Seq<char>>,
) -> Seq<(Seq<char>, Seq<char>, Seq<char>)>
    decreases unvisited_ids(s, visited, s.len() as int), queue.len(),
{
    if queue.len() == 0 {
        Seq::empty()
    } else {
        match position_of(s, queue[0]) {
            None => explain(s, lists, start, queue.drop_first(), visited),
            Some(p) => {
                let refs = stored_references(lists, p);
                let taken = explain_refs(s, start, s[p], refs, visited, refs.len() as int);
                proof {
                    lemma_explain_refs_count(s, start, s[p], refs, visited, refs.len() as int);
                }
                taken.0 + explain(s, lists, start, queue.drop_first() + taken.2, taken.1)
            },
        }
    }
}

/// Object `id` exists and has an access report.
pub open spec fn has_report(index: ProjectIndex, id: Seq<char>) -> bool {
    object_with(index.entries(), id) matches Some(o) && o.ordinal < index.access().reports@.len()
        && index.access().reports@[o.ordinal as int] is Some
}

/// The ids of the marked objects.
pub open spec fn marked_ids(s: Seq<ObjectRecord>, marks: Seq<bool>) -> Set<Seq<char>> {
    Set::new(|id: Seq<char>| exists|p: int| 0 <= p < marks.len() && marks[p] && (#[trigger] s[p]).id@ == id)
}

/// The visited ids: marked objects and the other ids listed in `extra`.
pub open spec fn visited_ids(s: Seq<ObjectRecord>, marks: Seq<bool>, extra: Seq<String>) -> Set<Seq<char>> {
    marked_ids(s, marks).union(names(extra))
}

/// The steps as triples of texts.
pub open spec fn steps_view(v: Seq<DependencyStep>) -> Seq<(Seq<char>, Seq<char>, Seq<char>)> {
    v.map_values(|d: DependencyStep| step_view(d))
}

/// The ids as texts.
pub open spec fn ids_view(v: Seq<String>) -> Seq<Seq<char>> {
    v.map_values(|x: String| x@)
}

impl ProjectIndex {
    /// The access report of object `id`, where it has one.
    pub fn access_report(&self, id: &str) -> (r: Option<AccessReport>)
        requires
            self.wf(),
            self.access().wf(),
        ensures
            r is Some <==> has_report(*self, id@),
            r matches Some(a) ==> self.access().presents(object_with(self.entries(), id@)->0.ordinal as int, a),
    {
        match self.get(id) {
            None => None,
            Some(o) => self.access_store().report(o.ordinal),
        }
    }

    /// Whether object `id` may be exported under `request`, judged by its effective
    /// access; nothing where it has no access report.
    pub fn export_check(&self, id: &str, request: ExportRequest) -> (r: Option<ExportDecision>)
        requires
            self.wf(),
            self.access().wf(),
        ensures
            r is Some <==> has_report(*self, id@),
            r matches Some(d) ==> {
                &&& d.request == request
                &&& d.eligible == export_eligible(d.effective_access, request)
                &&& exists|a: AccessReport| #[trigger] self.access().presents(object_with(self.entries(), id@)->0.ordinal as int, a)
                    && d.effective_access == a.effective
            },
    {
        match self.access_report(id) {
            None => None,
            Some(a) => {
                let ghost ga = a;
                let d = export_decision(a.effective, request);
                proof {
                    assert(self.access().presents(object_with(self.entries(), id@)->0.ordinal as int, ga));
                }
                Some(d)
            },
        }
    }

    /// The dependencies of object `id` as access policy walks them: breadth-first from
    /// `id`, each object's references in policy order, every other id once, each step
    /// naming its source, edge label and target. Nothing where `id` has no access
    /// report, or where the command budget stops the walk.
    pub fn access_explanation(&self, id: &str) -> (r: Option<Vec<DependencyStep>>)
        requires
            self.wf(),
            self.access().wf(),
        ensures
            !has_report(*self, id@) ==> r is None,
            r matches Some(v) ==> has_report(*self, id@) && exists|lists: Seq<Seq<ReferenceEdge>>| #[trigger] policy_lists_of(*self, lists)
                && steps_view(v@) == explain(self.entries(), lists, id@, seq![id@], Set::empty()),
    {
        if self.access_report(id).is_none() {
            return None;
        }
        let lists = policy_lists(self);
        let ghost lv = lists_view(lists@);
        let objects = self.objects();
        let ghost s = self.entries();
        let n = objects.len();
        let ghost goal = explain(s, lv, id@, seq![id@], Set::empty());
        let mut marks: Vec<bool> = Vec::new();
        let mut z: usize = 0;
        while z < n
            invariant
                z <= n,
                marks@.len() == z,
                forall|x: int| 0 <= x < z ==> !#[trigger] marks@[x],
            decreases n - z,
        {
            marks.push(false);
            z = z + 1;
        }
        let mut extra: Vec<String> = Vec::new();
        let mut queue: Vec<String> = Vec::new();
        queue.push(id.to_string());
        let mut out: Vec<DependencyStep> = Vec::new();
        let mut h: usize = 0;
        proof {
            assert(visited_ids(s, marks@, extra@) =~= Set::<Seq<char>>::empty());
            assert(ids_view(queue@).skip(0) =~= seq![id@]);
            assert(steps_view(out@) + goal =~= goal);
        }
        while h < queue.len()
            invariant
                self.wf(),
                s == self.entries(),
                objects@ == s,
                n == s.len(),
                lists@.len() == n,
                lv == lists_view(lists@),
                marks@.len() == n,
                h <= queue@.len(),
                forall|e: int| 0 <= e < extra@.len() ==> position_of(s, (#[trigger] extra@[e])@) is None,
                goal == explain(s, lv, id@, seq![id@], Set::empty()),
                steps_view(out@) + explain(s, lv, id@, ids_view(queue@).skip(h as int), visited_ids(s, marks@, extra@)) == goal,
            decreases unvisited_ids(s, visited_ids(s, marks@, extra@), n as int), queue@.len() - h,
        {
            if self.execution_budget().checkpoint().is_err() {
                return None;
            }
            let source = queue[h].clone();
            let ghost qv = ids_view(queue@);
            let ghost vis0 = visited_ids(s, marks@, extra@);
            proof {
                assert(qv.skip(h as int)[0] == source@);
                assert(qv.skip(h as int).drop_first() =~= qv.skip(h + 1));
            }
            h = h + 1;
            match self.position(source.as_str()) {
                None => {},
                Some(p) => {
                    proof {
                        crate::index::lemma_position_of(s, source@);
                    }
                    let src = &objects[p];
                    let refs = &lists[p];
                    let ghost out0 = steps_view(out@);
                    let ghost queue0 = ids_view(queue@);
                    let mut j: usize = 0;
                    while j < refs.len()
                        invariant
                            self.wf(),
                            s == self.entries(),
                            objects@ == s,
                            n == s.len(),
                            marks@.len() == n,
                            p < n,
                            src == s[p as int],
                            source@ == src.id@,
                            refs@ == lv[p as int],
                            j <= refs@.len(),
                            forall|e: int| 0 <= e < extra@.len() ==> position_of(s, (#[trigger] extra@[e])@) is None,
                            steps_view(out@) == out0 + explain_refs(s, id@, *src, refs@, vis0, j as int).0,
                            visited_ids(s, marks@, extra@) == explain_refs(s, id@, *src, refs@, vis0, j as int).1,
                            ids_view(queue@) == queue0 + explain_refs(s, id@, *src, refs@, vis0, j as int).2,
                        decreases refs@.len() - j,
                    {
                        if self.execution_budget().checkpoint().is_err() {
                            return None;
                        }
                        let e = &refs[j];
                        let t = e.target_id.as_str();
                        let ghost vis = visited_ids(s, marks@, extra@);
                        proof {
                            self.lemma_wf_ascending();
                            crate::index::lemma_position_of(s, t@);
                        }
                        let at = self.position(t);
                        let seen = match at {
                            Some(q) => marks[q],
                            None => crate::access::contains_name(&extra, t),
                        };
                        proof {
                            if at is Some {
                                let q = at->0;
                                if vis.contains(t@) {
                                    if names(extra@).contains(t@) {
                                        let w = choose|w: int| 0 <= w < extra@.len() && (#[trigger] extra@[w])@ == t@;
                                        assert(position_of(s, extra@[w]@) is None);
                                    } else {
                                        assert(marked_ids(s, marks@).contains(t@));
                                        let p2 = choose|p2: int| 0 <= p2 < marks@.len() && marks@[p2] && (#[trigger] s[p2]).id@ == t@;
                                        assert(p2 == q as int);
                                    }
                                }
                                if marks@[q as int] {
                                    assert(marked_ids(s, marks@).contains(t@));
                                    assert(vis.contains(t@));
                                }
                            } else {
                                if vis.contains(t@) && !names(extra@).contains(t@) {
                                    assert(marked_ids(s, marks@).contains(t@));
                                    let p2 = choose|p2: int| 0 <= p2 < marks@.len() && marks@[p2] && (#[trigger] s[p2]).id@ == t@;
                                    assert(false);
                                }
                            }
                            assert(seen == vis.contains(t@));
                            assert(refs@.subrange(0, j + 1).len() == j + 1);
                        }
                        if crate::text::str_eq(t, id) || seen {
                        } else {
                            match at {
                                None => {
                                    let ghost ex0 = extra@;
                                    extra.push(t.to_string());
                                    proof {
                                        assert(visited_ids(s, marks@, extra@) =~= vis.insert(t@)) by {
                                            assert forall|x: Seq<char>| names(extra@).contains(x) <==> (names(ex0).contains(x) || x == t@) by {
                                                if names(extra@).contains(x) {
                                                    let w = choose|w: int| 0 <= w < extra@.len() && (#[trigger] extra@[w])@ == x;
                                                    if w < ex0.len() {
                                                        assert(extra@[w] == ex0[w]);
                                                    }
                                                }
                                                if names(ex0).contains(x) {
                                                    let w = choose|w: int| 0 <= w < ex0.len() && (#[trigger] ex0[w])@ == x;
                                                    assert(extra@[w] == ex0[w]);
                                                }
                                                if x == t@ {
                                                    assert(extra@[ex0.len() as int]@ == t@);
                                                }
                                            }
                                        }
                                    }
                                },
                                Some(q) => {
                                    let ghost m0 = marks@;
                                    marks.set(q, true);
                                    let named = access_edge(src, e.json_pointer.as_str());
                                    let ghost o0 = out@;
                                    out.push(DependencyStep { from_id: source.clone(), edge: named.label, to_id: t.to_string() });
                                    let ghost q0 = queue@;
                                    queue.push(t.to_string());
                                    proof {
                                        assert(visited_ids(s, marks@, extra@) =~= vis.insert(t@)) by {
                                            assert forall|x: Seq<char>| #[trigger] marked_ids(s, marks@).contains(x)
                                                <==> (marked_ids(s, m0).contains(x) || x == t@) by {
                                                if exists|p3: int| 0 <= p3 < marks@.len() && marks@[p3] && (#[trigger] s[p3]).id@ == x {
                                                    let p3 = choose|p3: int| 0 <= p3 < marks@.len() && marks@[p3] && (#[trigger] s[p3]).id@ == x;
                                                    if p3 != q as int {
                                                        assert(m0[p3]);
                                                    }
                                                }
                                                if exists|p3: int| 0 <= p3 < m0.len() && m0[p3] && (#[trigger] s[p3]).id@ == x {
                                                    let p3 = choose|p3: int| 0 <= p3 < m0.len() && m0[p3] && (#[trigger] s[p3]).id@ == x;
                                                    assert(marks@[p3]);
                                                }
                                                if x == t@ {
                                                    assert(marks@[q as int] && s[q as int].id@ == t@);
                                                }
                                            }
                                        }
                                        assert(steps_view(out@) =~= steps_view(o0).push((src.id@, access_edge_of(src.object_type, e.json_pointer@).1, t@)));
                                        assert(ids_view(queue@) =~= ids_view(q0).push(t@));
                                        assert(source@ == src.id@);
                                    }
                                },
                            }
                        }
                        j = j + 1;
                    }
                    proof {
                        let taken = explain_refs(s, id@, *src, refs@, vis0, refs@.len() as int);
                        lemma_explain_refs_count(s, id@, *src, refs@, vis0, refs@.len() as int);
                        assert(stored_references(lv, p as int) == refs@);
                        assert(ids_view(queue@).skip(h as int) =~= qv.skip(h as int) + taken.2);
                        assert(steps_view(out@) + explain(s, lv, id@, ids_view(queue@).skip(h as int), visited_ids(s, marks@, extra@))
                            =~= out0 + (taken.0 + explain(s, lv, id@, qv.skip(h as int) + taken.2, taken.1)));
                    }
                },
            }
        }
        proof {
            assert(ids_view(queue@).skip(h as int) =~= Seq::<Seq<char>>::empty());
            assert(steps_view(out@) =~= goal);
        }
        Some(out)
    }

    /// The explanation of `id` between two budget checks: the stop where either fails.
    pub fn access_explanation_checked(&self, id: &str) -> (r: Result<Option<Vec<DependencyStep>>, ExecutionStop>)
        requires
            self.wf(),
            self.access().wf(),
        ensures
            r matches Ok(x) ==> {
                &&& !has_report(*self, id@) ==> x is None
                &&& x matches Some(v) ==> has_report(*self, id@) && exists|lists: Seq<Seq<ReferenceEdge>>|
                    #[trigger] policy_lists_of(*self, lists) && steps_view(v@) == explain(self.entries(), lists, id@, seq![id@], Set::empty())
            },
    {
        match self.execution_budget().checkpoint() {
            Err(stop) => return Err(stop),
            Ok(()) => {},
        }
        let result = self.access_explanation(id);
        match self.execution_budget().checkpoint() {
            Err(stop) => Err(stop),
            Ok(()) => Ok(result),
        }
    }
}

} // verus!
