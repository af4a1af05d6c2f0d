//! Cycles in revision lineages, thread hierarchies and assessment supersession.
use vstd::prelude::*;
use vstd::string::StringSliceAdditionalSpecFns;
use vstd::utf8::encode_utf8;

use crate::execution::ExecutionBudget;
use crate::index::{item_target, item_target_of, lemma_position_of, object_with, position_of, ObjectRecord, ProjectIndex};
use crate::json::{as_items, as_text, json_get, json_pointer};
use crate::model::ObjectType;
use crate::report_json::JsonValue;
use crate::text::{bytes_lt, compare_bytes, lemma_bytes_lt_irreflexive, lemma_bytes_lt_transitive};

verus! {

broadcast use vstd::seq_lib::group_to_multiset_ensures;

/// The graphs in which a cycle is an error.
#[derive(Clone, Copy, Debug, PartialEq, Eq, Structural)]
pub enum CycleClass {
    Node,
    Relation,
    Binding,
    Thread,
    Assessment,
}

/// The objects that take part in the graph of `class`.
pub open spec fn belongs(t: ObjectType, class: CycleClass) -> bool {
    match class {
        CycleClass::Node => t is Node,
        CycleClass::Relation => t is Relation,
        CycleClass::Binding => t is ThreadBinding,
        CycleClass::Thread => t is Thread,
        CycleClass::Assessment => t is Assessment,
    }
}

fn belongs_exec(t: &ObjectType, class: CycleClass) -> (r: bool)
    ensures
        r == belongs(*t, class),
{
    match (class, t) {
        (CycleClass::Node, ObjectType::Node(_)) => true,
        (CycleClass::Relation, ObjectType::Relation) => true,
        (CycleClass::Binding, ObjectType::ThreadBinding) => true,
        (CycleClass::Thread, ObjectType::Thread) => true,
        (CycleClass::Assessment, ObjectType::Assessment) => true,
        _ => false,
    }
}

/// The identifiers named by the first `n` items: the items themselves, or their `id`.
pub open spec fn item_texts(items: Seq<JsonValue>, parents: bool, n: int) -> Seq<Seq<char>>
    decreases n,
{
    if n <= 0 {
        Seq::empty()
    } else {
        let prev = item_texts(items, parents, n - 1);
        match item_target(items[n - 1], parents) {
            Some(t) => prev.push(t),
            None => prev,
        }
    }
}

pub open spec fn opt_seq(t: Option<Seq<char>>) -> Seq<Seq<char>> {
    match t {
        Some(x) => seq![x],
        None => Seq::empty(),
    }
}

/// The identifiers an object of `class` points to, as it lists them: revision
/// parents, a thread's parent and fork origin, or superseded assessments.
pub open spec fn raw_targets(o: ObjectRecord, class: CycleClass) -> Seq<Seq<char>> {
    match class {
        CycleClass::Thread => opt_seq(as_text(json_get(o.value, "parent_thread_id"@))) + opt_seq(
            as_text(json_get(o.value, "forked_from_thread_id"@)),
        ),
        CycleClass::Assessment => match as_items(json_get(o.value, "supersedes_assessments"@)) {
            Some(items) => item_texts(items, false, items.len() as int),
            None => Seq::empty(),
        },
        _ => match as_items(json_pointer(o.value, "/revision/parents"@)) {
            Some(items) => item_texts(items, true, items.len() as int),
            None => Seq::empty(),
        },
    }
}

/// The object `id` exists and takes part in the graph of `class`.
pub open spec fn member(s: Seq<ObjectRecord>, class: CycleClass, id: Seq<char>) -> bool {
    match object_with(s, id) {
        Some(o) => belongs(o.object_type, class),
        None => false,
    }
}

/// An edge of the graph of `class`: both ends take part and `u` points to `v`.
pub open spec fn class_edge(s: Seq<ObjectRecord>, class: CycleClass, u: Seq<char>, v: Seq<char>) -> bool {
    &&& member(s, class, u)
    &&& member(s, class, v)
    &&& raw_targets(object_with(s, u)->0, class).contains(v)
}

/// Consecutive identifiers of `w` are joined by edges of the graph of `class`.
pub open spec fn class_walk(s: Seq<ObjectRecord>, class: CycleClass, w: Seq<Seq<char>>) -> bool {
    forall|i: int| 0 <= i < w.len() - 1 ==> class_edge(s, class, #[trigger] w[i], w[i + 1])
}

/// `id` lies on a cycle of the graph of `class`.
pub open spec fn on_cycle(s: Seq<ObjectRecord>, class: CycleClass, id: Seq<char>) -> bool {
    exists|w: Seq<Seq<char>>| w.len() >= 2 && w[0] == id && w.last() == id && class_walk(s, class, w)
}

/// The graph of `class` has a cycle.
pub open spec fn has_cycle(s: Seq<ObjectRecord>, class: CycleClass) -> bool {
    exists|id: Seq<char>| on_cycle(s, class, id)
}

/// The graph of `class` has a path through at least `len` distinct objects.
pub open spec fn has_simple_path(s: Seq<ObjectRecord>, class: CycleClass, len: int) -> bool {
    exists|w: Seq<Seq<char>>| {
        &&& w.len() >= len
        &&& class_walk(s, class, w)
        &&& forall|i: int, j: int| 0 <= i < j < w.len() ==> #[trigger] w[i] != #[trigger] w[j]
    }
}

/// Texts in ascending order of their bytes; equal ones side by side.
pub open spec fn texts_sorted(s: Seq<String>) -> bool {
    forall|i: int, j: int| 0 <= i < j < s.len() ==> !bytes_lt(encode_utf8((#[trigger] s[j])@), encode_utf8((#[trigger] s[i])@))
}

fn insert_text(sorted: &mut Vec<String>, x: String)
    requires
        texts_sorted(old(sorted)@),
    ensures
        texts_sorted(final(sorted)@),
        final(sorted)@.to_multiset() == old(sorted)@.to_multiset().insert(x),
{
    let ghost keys = sorted@;
    let mut p: usize = 0;
    while p < sorted.len() && compare_bytes(x.as_str().as_bytes(), sorted[p].as_str().as_bytes()) >= 0
        invariant
            p <= sorted@.len(),
            keys == sorted@,
            forall|k: int| 0 <= k < p ==> !bytes_lt(encode_utf8(x@), encode_utf8((#[trigger] keys[k])@)),
        decreases sorted.len() - p,
    {
        p = p + 1;
    }
    proof {
        vstd::seq_lib::to_multiset_insert(sorted@, p as int, x);
    }
    sorted.insert(p, x);
    let ghost nk = sorted@;
    assert(nk =~= keys.insert(p as int, x));
    assert forall|i: int, j: int| 0 <= i < j < nk.len() implies !bytes_lt(encode_utf8((#[trigger] nk[j])@), encode_utf8((#[trigger] nk[i])@)) by {
        lemma_bytes_lt_irreflexive(encode_utf8(x@));
        if i < p && j == p {
        } else if i == p && j > p {
            if bytes_lt(encode_utf8(nk[j]@), encode_utf8(x@)) {
                assert(nk[j] == keys[j - 1]);
                assert(bytes_lt(encode_utf8(x@), encode_utf8(keys[p as int]@)));
                if j - 1 > p {
                    assert(!bytes_lt(encode_utf8(keys[j - 1]@), encode_utf8(keys[p as int]@)));
                }
                lemma_bytes_lt_transitive(encode_utf8(keys[j - 1]@), encode_utf8(x@), encode_utf8(keys[p as int]@));
                lemma_bytes_lt_irreflexive(encode_utf8(keys[p as int]@));
            }
        } else if i < p && j < p {
        } else if i < p && j > p {
            assert(nk[j] == keys[j - 1]);
        } else {
            assert(nk[j] == keys[j - 1]);
            assert(nk[i] == keys[i - 1]);
        }
    }
}

/// The texts in ascending order of their bytes.
pub fn sort_texts(texts: Vec<String>) -> (r: Vec<String>)
    ensures
        texts_sorted(r@),
        r@.to_multiset() == texts@.to_multiset(),
{
    let ghost original = texts@;
    let mut rest = texts;
    let mut sorted: Vec<String> = Vec::new();
    while rest.len() > 0
        invariant
            texts_sorted(sorted@),
            sorted@.to_multiset().add(rest@.to_multiset()) == original.to_multiset(),
        decreases rest.len(),
    {
        let ghost before = rest@;
        let x = rest.pop().unwrap();
        proof {
            assert(before =~= rest@.push(x));
        }
        insert_text(&mut sorted, x);
        proof {
            assert(sorted@.to_multiset().add(rest@.to_multiset()) =~= original.to_multiset());
        }
    }
    proof {
        assert(rest@.to_multiset() =~= vstd::multiset::Multiset::empty());
        assert(sorted@.to_multiset() =~= original.to_multiset());
    }
    sorted
}

/// The identifiers named by the items of an array.
fn collect_item_texts(items: &[JsonValue], parents: bool) -> (r: Vec<String>)
    ensures
        r@.map_values(|t: String| t@) == item_texts(items@, parents, items@.len() as int),
{
    let mut out: Vec<String> = Vec::new();
    let mut i: usize = 0;
    while i < items.len()
        invariant
            i <= items@.len(),
            out@.map_values(|t: String| t@) == item_texts(items@, parents, i as int),
        decreases items@.len() - i,
    {
        let ghost before = out@;
        match item_target_of(&items[i], parents) {
            Some(t) => {
                out.push(t.to_owned());
                proof {
                    assert(out@.map_values(|t: String| t@) =~= before.map_values(|t: String| t@).push(t@));
                }
            },
            None => {},
        }
        i = i + 1;
    }
    out
}

/// The identifiers an object of `class` points to, as it lists them.
fn raw_targets_of(o: &ObjectRecord, class: CycleClass) -> (r: Vec<String>)
    ensures
        r@.map_values(|t: String| t@) == raw_targets(*o, class),
{
    match class {
        CycleClass::Thread => {
            let mut out: Vec<String> = Vec::new();
            let parent = match o.value.get("parent_thread_id") {
                Some(v) => v.as_str(),
                None => None,
            };
            if let Some(t) = parent {
                out.push(t.to_owned());
            }
            let fork = match o.value.get("forked_from_thread_id") {
                Some(v) => v.as_str(),
                None => None,
            };
            if let Some(t) = fork {
                out.push(t.to_owned());
            }
            proof {
                assert(out@.map_values(|t: String| t@) =~= raw_targets(*o, class));
            }
            out
        },
        CycleClass::Assessment => match o.value.get("supersedes_assessments") {
            Some(v) => match v.as_array() {
                Some(items) => collect_item_texts(items.as_slice(), false),
                None => Vec::new(),
            },
            None => Vec::new(),
        },
        _ => match o.value.at_pointer("/revision/parents") {
            Some(v) => match v.as_array() {
                Some(items) => collect_item_texts(items.as_slice(), true),
                None => Vec::new(),
            },
            None => Vec::new(),
        },
    }
}

/// The identifiers an object of `class` points to, in ascending order.
pub fn cycle_targets(o: &ObjectRecord, class: CycleClass) -> (r: Vec<String>)
    ensures
        texts_sorted(r@),
        targets_match(*o, class, r@),
{
    let raw = raw_targets_of(o, class);
    let ghost rv = raw@;
    let r = sort_texts(raw);
    proof {
        assert forall|k: int| 0 <= k < r@.len() implies raw_targets(*o, class).contains(#[trigger] r@[k]@) by {
            assert(r@.contains(r@[k]));
            assert(rv.to_multiset().count(r@[k]) > 0);
            assert(rv.contains(r@[k]));
            let i = choose|i: int| 0 <= i < rv.len() && rv[i] == r@[k];
            assert(rv.map_values(|x: String| x@)[i] == r@[k]@);
        }
        assert forall|t: Seq<char>| #[trigger] raw_targets(*o, class).contains(t) implies exists|k: int| 0 <= k < r@.len() && (#[trigger] r@[k])@ == t by {
            if raw_targets(*o, class).contains(t) {
                let i = choose|i: int| 0 <= i < raw_targets(*o, class).len() && raw_targets(*o, class)[i] == t;
                assert(rv.map_values(|x: String| x@)[i] == t);
                assert(rv.contains(rv[i]));
                assert(r@.to_multiset().count(rv[i]) > 0);
                assert(r@.contains(rv[i]));
                let k = choose|k: int| 0 <= k < r@.len() && r@[k] == rv[i];
                assert(r@[k]@ == t);
            }
            if exists|k: int| 0 <= k < r@.len() && (#[trigger] r@[k])@ == t {
                let k = choose|k: int| 0 <= k < r@.len() && (#[trigger] r@[k])@ == t;
                assert(r@.contains(r@[k]));
                assert(rv.to_multiset().count(r@[k]) > 0);
                assert(rv.contains(r@[k]));
                let i = choose|i: int| 0 <= i < rv.len() && rv[i] == r@[k];
                assert(rv.map_values(|x: String| x@)[i] == t);
            }
        }
    }
    r
}

/// The outcome of a search for a cycle.
#[derive(Debug, PartialEq, Eq)]
pub enum CycleSearch {
    Stopped,
    Acyclic,
    Cycle(String),
    DepthExceeded,
}

/// An object being explored: its position, its sorted targets and how many of them
/// have been taken.
pub struct Frame {
    pub node: usize,
    pub targets: Vec<String>,
    pub next: usize,
}

/// The target `t` needs no more exploring: it is absent, outside the graph or finished.
pub open spec fn done_target(s: Seq<ObjectRecord>, class: CycleClass, colors: Seq<u8>, t: Seq<char>) -> bool {
    match position_of(s, t) {
        Some(q) => !belongs(s[q].object_type, class) || colors[q] == 2,
        None => true,
    }
}

/// The target `t` is absent, outside the graph, or finished before `bound`.
pub open spec fn finished_before(s: Seq<ObjectRecord>, class: CycleClass, colors: Seq<u8>, fin: Seq<int>, t: Seq<char>, bound: int) -> bool {
    match position_of(s, t) {
        Some(q) => !belongs(s[q].object_type, class) || (colors[q] == 2 && fin[q] < bound),
        None => true,
    }
}

/// The texts `r` name exactly the targets of `o`, as a set.
pub open spec fn targets_match(o: ObjectRecord, class: CycleClass, r: Seq<String>) -> bool {
    &&& forall|k: int| 0 <= k < r.len() ==> raw_targets(o, class).contains(#[trigger] r[k]@)
    &&& forall|t: Seq<char>| #[trigger] raw_targets(o, class).contains(t) ==> exists|k: int| 0 <= k < r.len() && (#[trigger] r[k])@ == t
}

/// A frame of object `f.node` whose targets are the object's, as a set.
pub open spec fn frame_ok(s: Seq<ObjectRecord>, class: CycleClass, f: Frame) -> bool {
    &&& f.node < s.len()
    &&& belongs(s[f.node as int].object_type, class)
    &&& f.next <= f.targets@.len()
    &&& targets_match(s[f.node as int], class, f.targets@)
}

/// Finished objects point only to objects finished earlier.
pub open spec fn black_closed(s: Seq<ObjectRecord>, class: CycleClass, colors: Seq<u8>, fin: Seq<int>, counter: int) -> bool {
    forall|p: int| 0 <= p < s.len() && colors[p] == 2 && belongs(s[p].object_type, class) ==> {
        &&& 0 <= #[trigger] fin[p] < counter
        &&& forall|v: Seq<char>| raw_targets(s[p], class).contains(v) ==> #[trigger] finished_before(s, class, colors, fin, v, fin[p])
    }
}

/// Every frame is sound and each frame's last taken target is the next frame's object.
pub open spec fn stack_path(s: Seq<ObjectRecord>, class: CycleClass, stack: Seq<Frame>) -> bool {
    &&& forall|i: int| 0 <= i < stack.len() ==> frame_ok(s, class, #[trigger] stack[i])
    &&& forall|i: int| 0 <= i < stack.len() - 1 ==> (#[trigger] stack[i]).next >= 1 && position_of(s, stack[i].targets@[stack[i].next - 1]@) == Some(stack[i + 1].node as int)
}

/// The state of a depth-first search: colours (0 unseen, 1 on the stack, 2 finished),
/// the stack as a path of edges, and what each frame has explored.
pub open spec fn dfs_state(s: Seq<ObjectRecord>, class: CycleClass, colors: Seq<u8>, stack: Seq<Frame>, fin: Seq<int>, counter: int) -> bool {
    let m = stack.len();
    &&& ids_ascending_of(s)
    &&& counter >= 0
    &&& colors.len() == s.len()
    &&& fin.len() == s.len()
    &&& forall|p: int| 0 <= p < s.len() ==> #[trigger] colors[p] <= 2
    &&& forall|p: int| 0 <= p < s.len() && !belongs(s[p].object_type, class) ==> #[trigger] colors[p] == 2
    &&& stack_path(s, class, stack)
    &&& forall|i: int| 0 <= i < m ==> colors[(#[trigger] stack[i]).node as int] == 1
    &&& forall|p: int| 0 <= p < s.len() && #[trigger] colors[p] == 1 ==> exists|i: int| 0 <= i < m && (#[trigger] stack[i]).node == p
    &&& forall|i: int, j: int| 0 <= i < j < m ==> (#[trigger] stack[i]).node != (#[trigger] stack[j]).node
    &&& forall|i: int, j: int| 0 <= i < m && 0 <= j < (#[trigger] stack[i]).next && (i == m - 1 || j < stack[i].next - 1)
        ==> done_target(s, class, colors, #[trigger] stack[i].targets@[j]@)
    &&& black_closed(s, class, colors, fin, counter)
}

pub open spec fn ids_ascending_of(s: Seq<ObjectRecord>) -> bool {
    crate::index::ids_ascending(s)
}

/// The number of unseen objects.
pub open spec fn whites(c: Seq<u8>) -> nat
    decreases c.len(),
{
    if c.len() == 0 {
        0
    } else {
        whites(c.drop_last()) + if c.last() == 0 { 1nat } else { 0nat }
    }
}

proof fn lemma_whites_update(c: Seq<u8>, p: int, v: u8)
    requires
        0 <= p < c.len(),
    ensures
        whites(c.update(p, v)) + (if c[p] == 0 { 1int } else { 0int }) == whites(c) + (if v == 0 { 1int } else { 0int }),
    decreases c.len(),
{
    if p < c.len() - 1 {
        lemma_whites_update(c.drop_last(), p, v);
        assert(c.update(p, v).drop_last() =~= c.drop_last().update(p, v));
    } else {
        assert(c.update(p, v).drop_last() =~= c.drop_last());
    }
}

/// What is left to explore on the stack: every frame's untaken targets, plus one per frame.
pub open spec fn work(st: Seq<Frame>) -> nat
    decreases st.len(),
{
    if st.len() == 0 {
        0
    } else {
        work(st.drop_last()) + (st.last().targets@.len() - st.last().next) as nat + 1
    }
}

/// The positions of objects along a stack, as identifiers, from frame `i` on.
pub open spec fn stack_ids(s: Seq<ObjectRecord>, stack: Seq<Frame>, i: int) -> Seq<Seq<char>> {
    stack.subrange(i, stack.len() as int).map_values(|f: Frame| s[f.node as int].id@)
}

/// An object at its own position is found there.
pub proof fn lemma_at_position(s: Seq<ObjectRecord>, p: int)
    requires
        ids_ascending_of(s),
        0 <= p < s.len(),
    ensures
        position_of(s, s[p].id@) == Some(p),
        object_with(s, s[p].id@) == Some(s[p]),
{
    lemma_position_of(s, s[p].id@);
}

/// A stack ending in an edge to a frame's own object closes a cycle through it.
proof fn lemma_stack_cycle(s: Seq<ObjectRecord>, class: CycleClass, stack: Seq<Frame>, i: int, nb: Seq<char>)
    requires
        ids_ascending_of(s),
        stack_path(s, class, stack),
        0 <= i < stack.len(),
        stack.last().next >= 1,
        stack.last().targets@[stack.last().next - 1]@ == nb,
        position_of(s, nb) == Some(stack[i].node as int),
    ensures
        on_cycle(s, class, nb),
{
    let m = stack.len() as int;
    let w = stack_ids(s, stack, i).push(nb);
    lemma_position_of(s, nb);
    assert forall|k: int| 0 <= k < w.len() - 1 implies class_edge(s, class, #[trigger] w[k], w[k + 1]) by {
        let f = stack[i + k];
        assert(frame_ok(s, class, f));
        lemma_at_position(s, f.node as int);
        assert(w[k] == s[f.node as int].id@);
        let t = f.targets@[f.next - 1]@;
        if i + k < m - 1 {
            assert(f.next >= 1 && position_of(s, t) == Some(stack[i + k + 1].node as int));
            lemma_position_of(s, t);
            assert(w[k + 1] == s[stack[i + k + 1].node as int].id@);
            assert(t == w[k + 1]);
            assert(frame_ok(s, class, stack[i + k + 1]));
            lemma_at_position(s, stack[i + k + 1].node as int);
        } else {
            assert(t == nb);
            assert(w[k + 1] == nb);
            assert(frame_ok(s, class, stack[i]));
        }
        assert(raw_targets(s[f.node as int], class).contains(f.targets@[f.next - 1]@));
    }
    assert(w[0] == s[stack[i].node as int].id@);
    assert(w[0] == nb);
    assert(w.len() >= 2 && w[0] == nb && w.last() == nb && class_walk(s, class, w));
}

/// The objects of a stack of distinct frames form a path of the graph.
proof fn lemma_stack_path_walk(s: Seq<ObjectRecord>, class: CycleClass, stack: Seq<Frame>)
    requires
        ids_ascending_of(s),
        stack_path(s, class, stack),
        forall|i: int, j: int| 0 <= i < j < stack.len() ==> (#[trigger] stack[i]).node != (#[trigger] stack[j]).node,
    ensures
        has_simple_path(s, class, stack.len() as int),
{
    let m = stack.len() as int;
    let w = stack_ids(s, stack, 0);
    assert forall|k: int| 0 <= k < w.len() - 1 implies class_edge(s, class, #[trigger] w[k], w[k + 1]) by {
        let f = stack[k];
        let g = stack[k + 1];
        assert(frame_ok(s, class, f));
        assert(frame_ok(s, class, g));
        lemma_at_position(s, f.node as int);
        lemma_at_position(s, g.node as int);
        assert(w[k] == s[f.node as int].id@);
        assert(w[k + 1] == s[g.node as int].id@);
        let t = f.targets@[f.next - 1]@;
        assert(f.next >= 1 && position_of(s, t) == Some(g.node as int));
        lemma_position_of(s, t);
        assert(t == w[k + 1]);
        assert(raw_targets(s[f.node as int], class).contains(f.targets@[f.next - 1]@));
    }
    assert forall|i: int, j: int| 0 <= i < j < w.len() implies #[trigger] w[i] != #[trigger] w[j] by {
        assert(stack[i].node != stack[j].node);
        assert(frame_ok(s, class, stack[i]));
        assert(frame_ok(s, class, stack[j]));
        lemma_at_position(s, stack[i].node as int);
        lemma_at_position(s, stack[j].node as int);
    }
    assert(w.len() == m);
    assert(class_walk(s, class, w));
}

/// With every object of the graph finished, the finishing order rules out a cycle.
proof fn lemma_all_finished_acyclic(s: Seq<ObjectRecord>, class: CycleClass, colors: Seq<u8>, fin: Seq<int>, counter: int)
    requires
        ids_ascending_of(s),
        colors.len() == s.len(),
        black_closed(s, class, colors, fin, counter),
        forall|p: int| 0 <= p < s.len() && belongs(s[p].object_type, class) ==> #[trigger] colors[p] == 2,
    ensures
        !has_cycle(s, class),
{
    if has_cycle(s, class) {
        let id = choose|id: Seq<char>| on_cycle(s, class, id);
        let w = choose|w: Seq<Seq<char>>| w.len() >= 2 && w[0] == id && w.last() == id && class_walk(s, class, w);
        lemma_walk_descends(s, class, colors, fin, counter, w, w.len() - 1);
        lemma_position_of(s, w[0]);
    }
}

/// Along a walk of finished objects, finishing numbers fall at every step.
proof fn lemma_walk_descends(s: Seq<ObjectRecord>, class: CycleClass, colors: Seq<u8>, fin: Seq<int>, counter: int, w: Seq<Seq<char>>, j: int)
    requires
        ids_ascending_of(s),
        colors.len() == s.len(),
        black_closed(s, class, colors, fin, counter),
        forall|p: int| 0 <= p < s.len() && belongs(s[p].object_type, class) ==> #[trigger] colors[p] == 2,
        w.len() >= 2,
        class_walk(s, class, w),
        0 <= j < w.len(),
    ensures
        position_of(s, w[0]) is Some,
        position_of(s, w[j]) is Some,
        fin[position_of(s, w[0])->0] >= fin[position_of(s, w[j])->0] + j,
    decreases j,
{
    assert(class_edge(s, class, w[0], w[1]));
    if j > 0 {
        lemma_walk_descends(s, class, colors, fin, counter, w, j - 1);
        assert(class_edge(s, class, w[j - 1], w[j]));
        lemma_position_of(s, w[j - 1]);
        lemma_position_of(s, w[j]);
        let p = position_of(s, w[j - 1])->0;
        assert(object_with(s, w[j - 1]) == Some(s[p]));
        assert(colors[p] == 2);
        assert(raw_targets(s[p], class).contains(w[j]));
        assert(finished_before(s, class, colors, fin, w[j], fin[p]));
    }
}

proof fn lemma_work_pop(st: Seq<Frame>)
    requires
        st.len() > 0,
        st.last().next <= st.last().targets@.len(),
    ensures
        work(st) == work(st.drop_last()) + (st.last().targets@.len() - st.last().next) + 1,
{
}

/// Taking one more target of the top frame keeps the stack a path.
proof fn lemma_advance_path(s: Seq<ObjectRecord>, class: CycleClass, st: Seq<Frame>, top: Frame)
    requires
        stack_path(s, class, st),
        st.len() > 0,
        top.node == st.last().node,
        top.targets == st.last().targets,
        top.next == st.last().next + 1,
        top.next <= top.targets@.len(),
    ensures
        stack_path(s, class, st.drop_last().push(top)),
        work(st.drop_last().push(top)) < work(st),
{
    let ns = st.drop_last().push(top);
    assert(frame_ok(s, class, st[st.len() - 1]));
    assert forall|i: int| 0 <= i < ns.len() implies frame_ok(s, class, #[trigger] ns[i]) by {
        if i < ns.len() - 1 {
            assert(ns[i] == st[i]);
        }
    }
    assert forall|i: int| 0 <= i < ns.len() - 1 implies (#[trigger] ns[i]).next >= 1 && position_of(s, ns[i].targets@[ns[i].next - 1]@) == Some(ns[i + 1].node as int) by {
        assert(ns[i] == st[i]);
        if i + 1 < ns.len() - 1 {
            assert(ns[i + 1] == st[i + 1]);
        }
    }
    assert(ns.drop_last() == st.drop_last());
}

/// Taking a target that needs no exploring keeps the search state.
#[verifier::spinoff_prover]
#[verifier::rlimit(40)]
proof fn lemma_advance_done(s: Seq<ObjectRecord>, class: CycleClass, cs: Seq<u8>, st: Seq<Frame>, fin: Seq<int>, counter: int, top: Frame)
    requires
        dfs_state(s, class, cs, st, fin, counter),
        st.len() > 0,
        top.node == st.last().node,
        top.targets == st.last().targets,
        top.next == st.last().next + 1,
        top.next <= top.targets@.len(),
        done_target(s, class, cs, top.targets@[top.next - 1]@),
    ensures
        dfs_state(s, class, cs, st.drop_last().push(top), fin, counter),
        work(st.drop_last().push(top)) < work(st),
{
    let ns = st.drop_last().push(top);
    let m = st.len();
    lemma_advance_path(s, class, st, top);
    assert forall|i: int| 0 <= i < m implies cs[(#[trigger] ns[i]).node as int] == 1 by {
        if i < m - 1 {
            assert(ns[i] == st[i]);
        } else {
            assert(cs[st[m - 1].node as int] == 1);
        }
    }
    assert forall|p: int| 0 <= p < s.len() && #[trigger] cs[p] == 1 implies exists|i: int| 0 <= i < m && (#[trigger] ns[i]).node == p by {
        let i = choose|i: int| 0 <= i < m && (#[trigger] st[i]).node == p;
        if i < m - 1 {
            assert(ns[i] == st[i]);
        } else {
            assert(ns[i].node == p);
        }
    }
    assert forall|i: int, j: int| 0 <= i < j < m implies (#[trigger] ns[i]).node != (#[trigger] ns[j]).node by {
        assert(st[i].node != st[j].node);
        if j < m - 1 {
            assert(ns[i] == st[i] && ns[j] == st[j]);
        } else {
            assert(ns[i] == st[i]);
        }
    }
    assert forall|i: int, j: int| 0 <= i < m && 0 <= j < (#[trigger] ns[i]).next && (i == m - 1 || j < ns[i].next - 1)
        implies done_target(s, class, cs, #[trigger] ns[i].targets@[j]@) by {
        if i < m - 1 {
            assert(ns[i] == st[i]);
        } else if j < top.next - 1 {
            assert(st[m - 1].targets@[j] == top.targets@[j]);
        }
    }
}

/// Entering an unseen target pushes its frame and greys it.
#[verifier::spinoff_prover]
#[verifier::rlimit(60)]
proof fn lemma_explore(s: Seq<ObjectRecord>, class: CycleClass, cs: Seq<u8>, st: Seq<Frame>, fin: Seq<int>, counter: int, top: Frame, g: Frame)
    requires
        dfs_state(s, class, cs, st, fin, counter),
        st.len() > 0,
        top.node == st.last().node,
        top.targets == st.last().targets,
        top.next == st.last().next + 1,
        top.next <= top.targets@.len(),
        position_of(s, top.targets@[top.next - 1]@) == Some(g.node as int),
        g.node < s.len(),
        cs[g.node as int] == 0,
        g.next == 0,
        targets_match(s[g.node as int], class, g.targets@),
    ensures
        dfs_state(s, class, cs.update(g.node as int, 1), st.drop_last().push(top).push(g), fin, counter),
{
    let q = g.node as int;
    let nc = cs.update(q, 1);
    let mid = st.drop_last().push(top);
    let ns = mid.push(g);
    let m = st.len();
    lemma_advance_path(s, class, st, top);
    assert(belongs(s[q].object_type, class));
    assert(frame_ok(s, class, g));
    assert forall|i: int| 0 <= i < ns.len() implies frame_ok(s, class, #[trigger] ns[i]) by {
        if i < m {
            assert(ns[i] == mid[i]);
        }
    }
    assert forall|i: int| 0 <= i < ns.len() - 1 implies (#[trigger] ns[i]).next >= 1 && position_of(s, ns[i].targets@[ns[i].next - 1]@) == Some(ns[i + 1].node as int) by {
        assert(ns[i] == mid[i]);
        if i + 1 < m {
            assert(ns[i + 1] == mid[i + 1]);
        }
    }
    assert(stack_path(s, class, ns));
    assert forall|i: int| 0 <= i < m implies st[i].node != q by {
        assert(cs[st[i].node as int] == 1);
    }
    assert forall|i: int| 0 <= i < ns.len() implies nc[(#[trigger] ns[i]).node as int] == 1 by {
        if i < m - 1 {
            assert(ns[i] == st[i]);
        } else if i == m - 1 {
            assert(ns[i].node == st[m - 1].node);
        }
    }
    assert forall|p: int| 0 <= p < s.len() && #[trigger] nc[p] == 1 implies exists|i: int| 0 <= i < ns.len() && (#[trigger] ns[i]).node == p by {
        if p == q {
            assert(ns[m as int].node == p);
        } else {
            let i = choose|i: int| 0 <= i < m && (#[trigger] st[i]).node == p;
            if i < m - 1 {
                assert(ns[i] == st[i]);
            } else {
                assert(ns[i].node == p);
            }
        }
    }
    assert forall|i: int, j: int| 0 <= i < j < ns.len() implies (#[trigger] ns[i]).node != (#[trigger] ns[j]).node by {
        if j == m {
            if i < m - 1 {
                assert(ns[i] == st[i]);
            }
        } else {
            assert(st[i].node != st[j].node);
            if j < m - 1 {
                assert(ns[i] == st[i] && ns[j] == st[j]);
            } else {
                assert(ns[i] == st[i]);
            }
        }
    }
    assert forall|t: Seq<char>| done_target(s, class, cs, t) implies #[trigger] done_target(s, class, nc, t) by {
        lemma_position_of(s, t);
        if position_of(s, t) is Some {
            let q2 = position_of(s, t)->0;
            if q2 == q {
                assert(cs[q] == 0 && belongs(s[q].object_type, class));
                assert(false);
            } else {
                assert(nc[q2] == cs[q2]);
            }
        }
    }
    assert forall|i: int, j: int| 0 <= i < ns.len() && 0 <= j < (#[trigger] ns[i]).next && (i == ns.len() - 1 || j < ns[i].next - 1)
        implies done_target(s, class, nc, #[trigger] ns[i].targets@[j]@) by {
        if i < m - 1 {
            assert(ns[i] == st[i]);
            assert(done_target(s, class, cs, st[i].targets@[j]@));
        } else if i == m - 1 {
            assert(st[m - 1].targets@[j] == top.targets@[j]);
            assert(done_target(s, class, cs, st[m - 1].targets@[j]@));
        }
    }
    assert forall|p: int| 0 <= p < s.len() && nc[p] == 2 && belongs(s[p].object_type, class) implies {
        &&& 0 <= #[trigger] fin[p] < counter
        &&& forall|v: Seq<char>| raw_targets(s[p], class).contains(v) ==> #[trigger] finished_before(s, class, nc, fin, v, fin[p])
    } by {
        assert(cs[p] == 2);
        assert forall|v: Seq<char>| raw_targets(s[p], class).contains(v) implies #[trigger] finished_before(s, class, nc, fin, v, fin[p]) by {
            assert(finished_before(s, class, cs, fin, v, fin[p]));
            lemma_position_of(s, v);
            if position_of(s, v) is Some {
                let q2 = position_of(s, v)->0;
                if q2 == q {
                    assert(false);
                } else {
                    assert(nc[q2] == cs[q2]);
                }
            }
        }
    }
}

/// Finishing the top frame blackens its object after everything it points to.
#[verifier::spinoff_prover]
#[verifier::rlimit(60)]
proof fn lemma_finish(s: Seq<ObjectRecord>, class: CycleClass, cs: Seq<u8>, st: Seq<Frame>, fin: Seq<int>, counter: int)
    requires
        dfs_state(s, class, cs, st, fin, counter),
        st.len() > 0,
        st.last().next >= st.last().targets@.len(),
    ensures
        dfs_state(
            s,
            class,
            cs.update(st.last().node as int, 2),
            st.drop_last(),
            fin.update(st.last().node as int, counter),
            counter + 1,
        ),
        work(st.drop_last()) < work(st),
{
    let m = st.len();
    let top = st[m - 1];
    let node = top.node as int;
    let nc = cs.update(node, 2);
    let nf = fin.update(node, counter);
    let ns = st.drop_last();
    assert(frame_ok(s, class, top));
    assert(cs[node] == 1);
    assert forall|i: int| 0 <= i < ns.len() implies (#[trigger] ns[i]).node != node by {
        assert(ns[i] == st[i]);
        assert(st[i].node != st[m - 1].node);
    }
    assert forall|i: int| 0 <= i < ns.len() implies frame_ok(s, class, #[trigger] ns[i]) by {
        assert(ns[i] == st[i]);
    }
    assert forall|i: int| 0 <= i < ns.len() - 1 implies (#[trigger] ns[i]).next >= 1 && position_of(s, ns[i].targets@[ns[i].next - 1]@) == Some(ns[i + 1].node as int) by {
        assert(ns[i] == st[i] && ns[i + 1] == st[i + 1]);
    }
    assert forall|i: int| 0 <= i < ns.len() implies nc[(#[trigger] ns[i]).node as int] == 1 by {
        assert(ns[i] == st[i]);
    }
    assert forall|p: int| 0 <= p < s.len() && #[trigger] nc[p] == 1 implies exists|i: int| 0 <= i < ns.len() && (#[trigger] ns[i]).node == p by {
        let i = choose|i: int| 0 <= i < m && (#[trigger] st[i]).node == p;
        assert(i != m - 1);
        assert(ns[i] == st[i]);
    }
    assert forall|i: int, j: int| 0 <= i < j < ns.len() implies (#[trigger] ns[i]).node != (#[trigger] ns[j]).node by {
        assert(ns[i] == st[i] && ns[j] == st[j]);
        assert(st[i].node != st[j].node);
    }
    assert forall|t: Seq<char>| done_target(s, class, cs, t) implies #[trigger] done_target(s, class, nc, t) by {
        lemma_position_of(s, t);
        if position_of(s, t) is Some {
            let q2 = position_of(s, t)->0;
            if q2 != node {
                assert(nc[q2] == cs[q2]);
            }
        }
    }
    assert forall|i: int, j: int| 0 <= i < ns.len() && 0 <= j < (#[trigger] ns[i]).next && (i == ns.len() - 1 || j < ns[i].next - 1)
        implies done_target(s, class, nc, #[trigger] ns[i].targets@[j]@) by {
        assert(ns[i] == st[i]);
        if i == m - 2 && j == ns[i].next - 1 {
            assert(position_of(s, st[i].targets@[st[i].next - 1]@) == Some(st[i + 1].node as int));
            assert(st[i + 1].node as int == node);
        } else {
            assert(done_target(s, class, cs, st[i].targets@[j]@));
        }
    }
    assert forall|p: int| 0 <= p < s.len() && nc[p] == 2 && belongs(s[p].object_type, class) implies {
        &&& 0 <= #[trigger] nf[p] < counter + 1
        &&& forall|v: Seq<char>| raw_targets(s[p], class).contains(v) ==> #[trigger] finished_before(s, class, nc, nf, v, nf[p])
    } by {
        if p == node {
            assert forall|v: Seq<char>| raw_targets(s[p], class).contains(v) implies #[trigger] finished_before(s, class, nc, nf, v, nf[p]) by {
                let k = choose|k: int| 0 <= k < top.targets@.len() && (#[trigger] top.targets@[k])@ == v;
                assert(done_target(s, class, cs, st[m - 1].targets@[k]@));
                lemma_position_of(s, v);
                if position_of(s, v) is Some {
                    let q = position_of(s, v)->0;
                    if belongs(s[q].object_type, class) {
                        assert(cs[q] == 2);
                        assert(q != node);
                        assert(0 <= fin[q] < counter);
                        assert(nc[q] == 2 && nf[q] == fin[q]);
                    }
                }
            }
        } else {
            assert(cs[p] == 2);
            assert(nf[p] == fin[p]);
            assert(0 <= fin[p] < counter);
            assert forall|v: Seq<char>| raw_targets(s[p], class).contains(v) implies #[trigger] finished_before(s, class, nc, nf, v, nf[p]) by {
                assert(finished_before(s, class, cs, fin, v, fin[p]));
                lemma_position_of(s, v);
                if position_of(s, v) is Some {
                    let q = position_of(s, v)->0;
                    if belongs(s[q].object_type, class) {
                        assert(q != node);
                        assert(nc[q] == cs[q] && nf[q] == fin[q]);
                    }
                }
            }
        }
    }
    assert(ns.len() == m - 1);
}

/// Searches the graph of `class` depth-first, objects and targets in ascending id
/// order, for an edge back to an object on the current path; the path may hold at
/// most `depth_limit` objects below the one being explored.
pub fn find_cycle(index: &ProjectIndex, class: CycleClass, depth_limit: usize) -> (r: CycleSearch)
    requires
        index.wf(),
    ensures
        r matches CycleSearch::Cycle(id) ==> on_cycle(index.entries(), class, id@),
        r is Acyclic ==> !has_cycle(index.entries(), class),
        r is DepthExceeded ==> has_simple_path(index.entries(), class, depth_limit + 2),
        (forall|p: int| 0 <= p < index.entries().len() ==> !belongs(#[trigger] index.entries()[p].object_type, class)) ==> r is Acyclic,
{
    let objects = index.objects();
    let n = objects.len();
    let ghost s = objects@;
    proof {
        assert(ids_ascending_of(s)) by {
            index.lemma_wf_ascending();
        }
    }
    let mut colors: Vec<u8> = Vec::new();
    let mut k: usize = 0;
    while k < n
        invariant
            n == s.len(),
            objects@ == s,
            k <= n,
            colors@.len() == k,
            forall|p: int| 0 <= p < k ==> #[trigger] colors@[p] == (if belongs(s[p].object_type, class) { 0u8 } else { 2u8 }),
        decreases n - k,
    {
        let c: u8 = if belongs_exec(&objects[k].object_type, class) { 0 } else { 2 };
        colors.push(c);
        k = k + 1;
    }
    let ghost mut fin: Seq<int> = Seq::new(n as nat, |i: int| 0int);
    let ghost mut counter: int = 0;
    let ghost empty: Seq<Frame> = Seq::empty();
    let mut start: usize = 0;
    while start < n
        invariant
            n == s.len(),
            objects@ == s,
            index.wf(),
            s == index.entries(),
            start <= n,
            dfs_state(s, class, colors@, empty, fin, counter),
            empty.len() == 0,
            forall|p: int| 0 <= p < start && belongs(s[p].object_type, class) ==> #[trigger] colors@[p] == 2,
        decreases n - start,
    {
        if !(belongs_exec(&objects[start].object_type, class) && colors[start] == 0) {
            proof {
                if belongs(s[start as int].object_type, class) {
                    assert(colors@[start as int] != 1);
                }
            }
            start = start + 1;
            continue;
        }
        let ghost before = colors@;
        colors.set(start, 1);
        let first = Frame { node: start, targets: cycle_targets(&objects[start], class), next: 0 };
        let mut stack: Vec<Frame> = Vec::new();
        stack.push(first);
        proof {
            lemma_whites_update(before, start as int, 1);
            assert(stack@ =~= seq![first]);
            assert forall|p: int| 0 <= p < s.len() && #[trigger] colors@[p] == 1 implies exists|i: int| 0 <= i < stack@.len() && (#[trigger] stack@[i]).node == p by {
                if p != start {
                    assert(before[p] == 1);
                }
                assert(stack@[0].node == start);
            }
            assert(black_closed(s, class, colors@, fin, counter)) by {
                assert forall|p: int| 0 <= p < s.len() && colors@[p] == 2 && belongs(s[p].object_type, class) implies {
                    &&& 0 <= #[trigger] fin[p] < counter
                    &&& forall|v: Seq<char>| raw_targets(s[p], class).contains(v) ==> #[trigger] finished_before(s, class, colors@, fin, v, fin[p])
                } by {
                    assert(before[p] == 2);
                    assert forall|v: Seq<char>| raw_targets(s[p], class).contains(v) implies #[trigger] finished_before(s, class, colors@, fin, v, fin[p]) by {
                        assert(finished_before(s, class, before, fin, v, fin[p]));
                        lemma_position_of(s, v);
                        if position_of(s, v) is Some {
                            let q2 = position_of(s, v)->0;
                            if q2 != start {
                                assert(colors@[q2] == before[q2]);
                            }
                        }
                    }
                }
            }
            assert(dfs_state(s, class, colors@, stack@, fin, counter));
        }
        while stack.len() > 0
            invariant
                n == s.len(),
                objects@ == s,
                index.wf(),
                s == index.entries(),
                start < n,
                dfs_state(s, class, colors@, stack@, fin, counter),
                colors@[start as int] >= 1,
                belongs(s[start as int].object_type, class),
                forall|p: int| 0 <= p < start && belongs(s[p].object_type, class) ==> #[trigger] colors@[p] == 2,
            decreases whites(colors@), work(stack@),
        {
            let ghost st = stack@;
            let ghost cs = colors@;
            let mut f = stack.pop().unwrap();
            proof {
                assert(stack@ == st.drop_last());
                assert(f == st.last());
                assert(frame_ok(s, class, st[st.len() - 1]));
                lemma_work_pop(st);
            }
            match index.execution_budget().checkpoint() {
                Err(_) => return CycleSearch::Stopped,
                Ok(()) => {},
            }
            if stack.len() > depth_limit {
                proof {
                    lemma_stack_path_walk(s, class, st);
                }
                return CycleSearch::DepthExceeded;
            }
            if f.next >= f.targets.len() {
                let node = f.node;
                colors.set(node, 2);
                proof {
                    lemma_whites_update(cs, node as int, 2);
                    lemma_finish(s, class, cs, st, fin, counter);
                    fin = fin.update(node as int, counter);
                    counter = counter + 1;
                }
                continue;
            }
            let nb = f.targets[f.next].clone();
            f.next = f.next + 1;
            let ghost top = f;
            stack.push(f);
            proof {
                assert(stack@ == st.drop_last().push(top));
                lemma_advance_path(s, class, st, top);
                lemma_position_of(s, nb@);
            }
            match index.position(nb.as_str()) {
                None => {
                    proof {
                        lemma_advance_done(s, class, cs, st, fin, counter, top);
                    }
                },
                Some(q) => {
                    let c = colors[q];
                    if c == 0 {
                        colors.set(q, 1);
                        let tg = cycle_targets(&objects[q], class);
                        proof {
                            assert(objects@[q as int] == s[q as int]);
                        }
                        let g = Frame { node: q, targets: tg, next: 0 };
                        let ghost gg = g;
                        stack.push(g);
                        proof {
                            lemma_whites_update(cs, q as int, 1);
                            lemma_explore(s, class, cs, st, fin, counter, top, gg);
                        }
                    } else if c == 1 {
                        proof {
                            let i = choose|i: int| 0 <= i < st.len() && (#[trigger] st[i]).node == q;
                            assert(stack@[i].node == q) by {
                                if i < st.len() - 1 {
                                    assert(stack@[i] == st[i]);
                                }
                            }
                            lemma_stack_cycle(s, class, stack@, i, nb@);
                        }
                        return CycleSearch::Cycle(nb);
                    } else {
                        proof {
                            lemma_advance_done(s, class, cs, st, fin, counter, top);
                        }
                    }
                },
            }
        }
        proof {
            assert forall|p: int| 0 <= p < start + 1 && belongs(s[p].object_type, class) implies #[trigger] colors@[p] == 2 by {
                if colors@[p] == 1 {
                    let i = choose|i: int| 0 <= i < stack@.len() && (#[trigger] stack@[i]).node == p;
                }
            }
        }
        start = start + 1;
    }
    proof {
        lemma_all_finished_acyclic(s, class, colors@, fin, counter);
    }
    CycleSearch::Acyclic
}

} // verus!
