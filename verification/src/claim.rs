//! Claim-chain results and the graph rules a selected claim chain must satisfy.
use vstd::prelude::*;

use crate::execution::ExecutionBudget;
use crate::graph::{
    adj_closed, adj_of, component_count, core_set, cyclic, every_node_entered, has_directed_cycle, has_edge,
    leaders_below, reach_from, reachable, symmetric,
};
use crate::finding::{sanitized, Finding, ProjectPath, Severity};
use crate::text::str_eq;

verus! {

/// One object of a claim chain's source closure, with its canonical digest.
#[derive(Clone, Debug, PartialEq, Eq)]
pub struct SourceClosureEntry {
    pub object_type: String,
    pub id: String,
    pub canonical_digest: String,
}

/// The outcome of checking one claim-chain snapshot.
#[derive(Clone, Debug, PartialEq, Eq)]
pub struct ClaimChainReport {
    pub snapshot_id: String,
    pub profile: String,
    /// Claim checks; attached reports additionally require a complete passed subject,
    /// exact body binding and safe equal labels. Not project validity or export permission.
    pub valid: bool,
    pub source_entries: Vec<SourceClosureEntry>,
    pub source_sha256: String,
}


/// The views of a list of strings.
pub open spec fn views(v: Seq<String>) -> Seq<Seq<char>> {
    v.map_values(|s: String| s@)
}

/// The distinct entries of `v`, each at its first occurrence.
pub open spec fn first_occurrences(v: Seq<Seq<char>>) -> Seq<Seq<char>>
    decreases v.len(),
{
    if v.len() == 0 {
        Seq::empty()
    } else {
        let prev = first_occurrences(v.drop_last());
        if prev.contains(v.last()) {
            prev
        } else {
            prev.push(v.last())
        }
    }
}

proof fn lemma_first_occurrences(v: Seq<Seq<char>>)
    ensures
        first_occurrences(v).no_duplicates(),
        forall|x: Seq<char>| #[trigger] first_occurrences(v).contains(x) <==> v.contains(x),
    decreases v.len(),
{
    if v.len() > 0 {
        lemma_first_occurrences(v.drop_last());
        let prev = first_occurrences(v.drop_last());
        assert forall|x: Seq<char>| #[trigger] first_occurrences(v).contains(x) <==> v.contains(x) by {
            if v.contains(x) {
                let k = choose|k: int| 0 <= k < v.len() && v[k] == x;
                if k < v.len() - 1 {
                    assert(v.drop_last()[k] == x);
                    assert(v.drop_last().contains(x));
                }
            }
            if v.drop_last().contains(x) {
                let k = choose|k: int| 0 <= k < v.drop_last().len() && v.drop_last()[k] == x;
                assert(v[k] == x);
            }
            if first_occurrences(v).contains(x) && !prev.contains(v.last()) {
                let k = choose|k: int| 0 <= k < prev.push(v.last()).len() && prev.push(v.last())[k] == x;
                if k == prev.len() {
                    assert(v[v.len() - 1] == x);
                } else {
                    assert(prev[k] == x);
                    assert(prev.contains(x));
                }
            }
            if prev.contains(x) && !prev.contains(v.last()) {
                let k = choose|k: int| 0 <= k < prev.len() && prev[k] == x;
                assert(prev.push(v.last())[k] == x);
            }
            if x == v.last() && !prev.contains(v.last()) {
                assert(prev.push(v.last())[prev.len() as int] == x);
            }
        }
    }
}

/// The position of `id` in `list`, if it occurs.
fn position(list: &Vec<String>, id: &str) -> (r: Option<usize>)
    ensures
        r matches Some(i) ==> i < list@.len() && list@[i as int]@ == id@,
        r is None ==> forall|i: int| 0 <= i < list@.len() ==> (#[trigger] list@[i])@ != id@,
{
    let mut i: usize = 0;
    while i < list.len()
        invariant
            i <= list@.len(),
            forall|k: int| 0 <= k < i ==> (#[trigger] list@[k])@ != id@,
        decreases list@.len() - i,
    {
        if str_eq(list[i].as_str(), id) {
            return Some(i);
        }
        i = i + 1;
    }
    None
}

/// The distinct ids of `ids`, each at its first occurrence.
fn distinct_ids(ids: &Vec<String>) -> (d: Vec<String>)
    ensures
        views(d@) == first_occurrences(views(ids@)),
{
    let mut d: Vec<String> = Vec::new();
    let mut i: usize = 0;
    proof {
        assert(views(ids@).subrange(0, 0) =~= Seq::<Seq<char>>::empty());
        assert(views(d@) =~= first_occurrences(Seq::<Seq<char>>::empty()));
    }
    while i < ids.len()
        invariant
            i <= ids@.len(),
            views(d@) == first_occurrences(views(ids@).subrange(0, i as int)),
        decreases ids@.len() - i,
    {
        let ghost prefix = views(ids@).subrange(0, i + 1);
        proof {
            assert(prefix.drop_last() =~= views(ids@).subrange(0, i as int));
            assert(prefix.last() == ids@[i as int]@);
        }
        match position(&d, ids[i].as_str()) {
            Some(k) => {
                proof {
                    assert(views(d@)[k as int] == ids@[i as int]@);
                    assert(views(d@).contains(prefix.last()));
                }
            },
            None => {
                let ghost before = d@;
                proof {
                    assert forall|k: int| 0 <= k < views(d@).len() implies views(d@)[k] != prefix.last() by {
                        assert(views(d@)[k] == d@[k]@);
                    }
                }
                d.push(ids[i].clone());
                proof {
                    assert(views(d@) =~= views(before).push(prefix.last()));
                }
            },
        }
        i = i + 1;
    }
    proof {
        assert(views(ids@).subrange(0, ids@.len() as int) =~= views(ids@));
    }
    d
}

/// An edge of `edges` leads from the node at `a` to the node at `b` of `d`.
pub open spec fn id_edge(d: Seq<Seq<char>>, edges: Seq<(String, String)>, a: int, b: int) -> bool {
    0 <= a < d.len() && 0 <= b < d.len() && exists|k: int|
        0 <= k < edges.len() && (#[trigger] edges[k]).0@ == d[a] && edges[k].1@ == d[b]
}

/// Appends `x` to row `a` of an adjacency list.
fn push_successor(adj: &mut Vec<Vec<usize>>, a: usize, x: usize)
    requires
        a < old(adj)@.len(),
    ensures
        final(adj)@.len() == old(adj)@.len(),
        adj_of(final(adj)@) == adj_of(old(adj)@).update(a as int, adj_of(old(adj)@)[a as int].push(x)),
{
    let mut row = adj[a].clone();
    row.push(x);
    adj.set(a, row);
    assert(adj_of(adj@) =~= adj_of(old(adj)@).update(a as int, adj_of(old(adj)@)[a as int].push(x)));
}

/// The number of weakly connected components of the graph of `nodes` (each distinct
/// id once) whose edges are those of `edges` between two of them, counted by the first
/// node of each component; `None` where the budget stopped the count.
pub fn weak_component_count(nodes: &Vec<String>, edges: &Vec<(String, String)>, execution: &ExecutionBudget) -> (r: Option<usize>)
    ensures
        r matches Some(c) ==> {
            let d = first_occurrences(views(nodes@));
            exists|g: Seq<Seq<usize>>| {
                &&& g.len() == d.len()
                &&& adj_closed(g)
                &&& forall|a: int, b: int| #[trigger] has_edge(g, a, b) <==> (id_edge(d, edges@, a, b) || id_edge(d, edges@, b, a))
                &&& c == leaders_below(g, d.len() as int)
            }
        },
        nodes@.len() == 0 ==> r == Some(0usize),
{
    let d = distinct_ids(nodes);
    let ghost dv = views(d@);
    proof {
        lemma_first_occurrences(views(nodes@));
    }
    let n = d.len();
    let mut adj: Vec<Vec<usize>> = Vec::new();
    let mut z: usize = 0;
    while z < n
        invariant
            z <= n,
            adj@.len() == z,
            forall|x: int| 0 <= x < z ==> (#[trigger] adj@[x])@.len() == 0,
        decreases n - z,
    {
        adj.push(Vec::new());
        z = z + 1;
    }
    let mut k: usize = 0;
    while k < edges.len()
        invariant
            dv == views(d@),
            dv.no_duplicates(),
            n == d@.len(),
            adj@.len() == n,
            k <= edges@.len(),
            adj_closed(adj_of(adj@)),
            forall|a: int, b: int| #[trigger] has_edge(adj_of(adj@), a, b) <==> (0 <= a < n && 0 <= b < n && exists|w: int|
                0 <= w < k && ((#[trigger] edges@[w]).0@ == dv[a] && edges@[w].1@ == dv[b] || edges@[w].0@ == dv[b] && edges@[w].1@ == dv[a])),
        decreases edges@.len() - k,
    {
        let pa = position(&d, edges[k].0.as_str());
        let pb = position(&d, edges[k].1.as_str());
        let ghost g0 = adj_of(adj@);
        match (pa, pb) {
            (Some(a), Some(b)) => {
                push_successor(&mut adj, a, b);
                let ghost g1 = adj_of(adj@);
                push_successor(&mut adj, b, a);
                proof {
                    let g2 = adj_of(adj@);
                    assert forall|x: int, y: int| #[trigger] has_edge(g2, x, y) <==> (0 <= x < n && 0 <= y < n && exists|w: int|
                        0 <= w < k + 1 && ((#[trigger] edges@[w]).0@ == dv[x] && edges@[w].1@ == dv[y] || edges@[w].0@ == dv[y] && edges@[w].1@ == dv[x])) by {
                        assert(dv[a as int] == d@[a as int]@);
                        assert(dv[b as int] == d@[b as int]@);
                        if has_edge(g2, x, y) {
                            let m = choose|m: int| 0 <= m < g2[x].len() && g2[x][m] as int == y;
                            if (x == b as int && m == g1[x].len()) {
                                assert(edges@[k as int].0@ == dv[y] && edges@[k as int].1@ == dv[x]);
                            } else if (x == a as int && m == g0[x].len()) {
                                assert(g1[x][m] == g2[x][m]);
                                assert(edges@[k as int].0@ == dv[x] && edges@[k as int].1@ == dv[y]);
                            } else {
                                assert(g0[x][m] == g2[x][m]);
                                assert(has_edge(g0, x, y));
                            }
                        }
                        if 0 <= x < n && 0 <= y < n && exists|w: int| 0 <= w < k + 1 && ((#[trigger] edges@[w]).0@ == dv[x] && edges@[w].1@ == dv[y] || edges@[w].0@ == dv[y] && edges@[w].1@ == dv[x]) {
                            let w = choose|w: int| 0 <= w < k + 1 && ((#[trigger] edges@[w]).0@ == dv[x] && edges@[w].1@ == dv[y] || edges@[w].0@ == dv[y] && edges@[w].1@ == dv[x]);
                            if w < k {
                                assert(has_edge(g0, x, y));
                                let m = choose|m: int| 0 <= m < g0[x].len() && g0[x][m] as int == y;
                                assert(g2[x][m] == g0[x][m]);
                            } else {
                                if edges@[w].0@ == dv[x] && edges@[w].1@ == dv[y] {
                                    lemma_distinct_views(d@, x, a as int);
                                    lemma_distinct_views(d@, y, b as int);
                                } else {
                                    lemma_distinct_views(d@, x, b as int);
                                    lemma_distinct_views(d@, y, a as int);
                                }
                                if x == a as int && y == b as int {
                                    assert(g2[x][g0[x].len() as int] as int == y);
                                } else {
                                    assert(x == b as int && y == a as int);
                                    assert(g2[x][g1[x].len() as int] as int == y);
                                }
                            }
                        }
                    }
                    assert forall|x: int, m: int| 0 <= x < g2.len() && 0 <= m < g2[x].len() implies #[trigger] g2[x][m] < g2.len() by {
                        if !(x == b as int && m == g1[x].len()) && !(x == a as int && m == g0[x].len()) {
                            assert(g2[x][m] == g0[x][m]);
                        }
                    }
                }
            },
            _ => {
                proof {
                    assert forall|x: int, y: int| #[trigger] has_edge(g0, x, y) <==> (0 <= x < n && 0 <= y < n && exists|w: int|
                        0 <= w < k + 1 && ((#[trigger] edges@[w]).0@ == dv[x] && edges@[w].1@ == dv[y] || edges@[w].0@ == dv[y] && edges@[w].1@ == dv[x])) by {
                        if 0 <= x < n && 0 <= y < n && exists|w: int| 0 <= w < k + 1 && ((#[trigger] edges@[w]).0@ == dv[x] && edges@[w].1@ == dv[y] || edges@[w].0@ == dv[y] && edges@[w].1@ == dv[x]) {
                            let w = choose|w: int| 0 <= w < k + 1 && ((#[trigger] edges@[w]).0@ == dv[x] && edges@[w].1@ == dv[y] || edges@[w].0@ == dv[y] && edges@[w].1@ == dv[x]);
                            if w == k as int {
                                assert(dv[x] == d@[x]@);
                                assert(dv[y] == d@[y]@);
                                assert(false);
                            }
                        }
                    }
                }
            },
        }
        k = k + 1;
    }
    let ghost g = adj_of(adj@);
    proof {
        assert forall|x: int, y: int| #[trigger] has_edge(g, x, y) implies has_edge(g, y, x) by {}
        assert forall|x: int, y: int| #[trigger] has_edge(g, x, y) <==> (id_edge(dv, edges@, x, y) || id_edge(dv, edges@, y, x)) by {
            if has_edge(g, x, y) {
                let w = choose|w: int| 0 <= w < edges@.len() && ((#[trigger] edges@[w]).0@ == dv[x] && edges@[w].1@ == dv[y] || edges@[w].0@ == dv[y] && edges@[w].1@ == dv[x]);
            }
            if id_edge(dv, edges@, x, y) {
                let w = choose|w: int| 0 <= w < edges@.len() && (#[trigger] edges@[w]).0@ == dv[x] && edges@[w].1@ == dv[y];
            }
            if id_edge(dv, edges@, y, x) {
                let w = choose|w: int| 0 <= w < edges@.len() && (#[trigger] edges@[w]).0@ == dv[y] && edges@[w].1@ == dv[x];
            }
        }
    }
    proof {
        if nodes@.len() == 0 {
            assert(views(nodes@) =~= Seq::<Seq<char>>::empty());
            assert(adj@.len() == 0);
        }
    }
    let c = component_count(&adj, execution);
    c
}

/// Two positions of a list without repeated views that hold the same view are one.
proof fn lemma_distinct_views(d: Seq<String>, x: int, y: int)
    requires
        views(d).no_duplicates(),
        0 <= x < d.len(),
        0 <= y < d.len(),
        d[x]@ == d[y]@,
    ensures
        x == y,
{
    assert(views(d)[x] == views(d)[y]);
}

/// Edge `(x, y)` of node positions stands for an edge of `edges` into the node at `y`,
/// from the node at `x` or, with `x == d.len()`, from an id outside `d`.
pub open spec fn kahn_edge(d: Seq<Seq<char>>, edges: Seq<(String, String)>, x: int, y: int) -> bool {
    0 <= y < d.len() && exists|w: int| 0 <= w < edges.len() && #[trigger] edges[w].1@ == d[y] && (
        (0 <= x < d.len() && edges[w].0@ == d[x]) || (x == d.len() && !d.contains(edges[w].0@)))
}

/// Whether the graph of `nodes` (each distinct id once) with the edges of `edges` that
/// end at one of them has a directed cycle, reporting `true` also where `nodes`
/// repeats an id; `None` where the budget stopped the search. An edge from an id that
/// is not a node holds its target back as a cycle would.
pub fn directed_cycle(nodes: &Vec<String>, edges: &Vec<(String, String)>, execution: &ExecutionBudget) -> (r: Option<bool>)
    ensures
        r matches Some(b) ==> {
            let d = first_occurrences(views(nodes@));
            exists|e: Seq<(usize, usize)>| {
                &&& forall|x: int, y: int| (exists|k: int| 0 <= k < e.len() && #[trigger] e[k] == (x as usize, y as usize)
                    && 0 <= x <= d.len() && 0 <= y < d.len()) <==> kahn_edge(d, edges@, x, y)
                &&& forall|k: int| 0 <= k < e.len() ==> #[trigger] e[k].0 <= d.len()
                &&& b == (cyclic(d.len() as int, e) || d.len() != nodes@.len())
            }
        },
        nodes@.len() == 0 ==> r == Some(false),
{
    let d = distinct_ids(nodes);
    let ghost dv = views(d@);
    proof {
        lemma_first_occurrences(views(nodes@));
    }
    let n = d.len();
    let mut mapped: Vec<(usize, usize)> = Vec::new();
    let mut k: usize = 0;
    while k < edges.len()
        invariant
            dv == views(d@),
            dv.no_duplicates(),
            n == d@.len(),
            k <= edges@.len(),
            forall|i: int| 0 <= i < mapped@.len() ==> (#[trigger] mapped@[i]).1 < n && mapped@[i].0 <= n,
            forall|x: int, y: int| (exists|i: int| 0 <= i < mapped@.len() && #[trigger] mapped@[i] == (x as usize, y as usize)
                && 0 <= x <= n && 0 <= y < n) <==> kahn_edge(dv, edges@.subrange(0, k as int), x, y),
        decreases edges@.len() - k,
    {
        let ghost m0 = mapped@;
        let ghost prefix = edges@.subrange(0, k + 1);
        match position(&d, edges[k].1.as_str()) {
            Some(b) => {
                let a = match position(&d, edges[k].0.as_str()) {
                    Some(a) => a,
                    None => n,
                };
                mapped.push((a, b));
                proof {
                    assert(dv[b as int] == d@[b as int]@);
                    if a < n {
                        assert(dv[a as int] == d@[a as int]@);
                    } else {
                        assert forall|i: int| 0 <= i < dv.len() implies dv[i] != edges@[k as int].0@ by {
                            assert(dv[i] == d@[i]@);
                        }
                    }
                    assert forall|x: int, y: int| (exists|i: int| 0 <= i < mapped@.len() && #[trigger] mapped@[i] == (x as usize, y as usize)
                        && 0 <= x <= n && 0 <= y < n) <==> kahn_edge(dv, prefix, x, y) by {
                        if exists|i: int| 0 <= i < mapped@.len() && #[trigger] mapped@[i] == (x as usize, y as usize) && 0 <= x <= n && 0 <= y < n {
                            let i = choose|i: int| 0 <= i < mapped@.len() && #[trigger] mapped@[i] == (x as usize, y as usize) && 0 <= x <= n && 0 <= y < n;
                            if i < m0.len() {
                                assert(m0[i] == mapped@[i]);
                                assert(kahn_edge(dv, edges@.subrange(0, k as int), x, y));
                                let w = choose|w: int| 0 <= w < k && #[trigger] edges@.subrange(0, k as int)[w].1@ == dv[y] && (
                                    (0 <= x < dv.len() && edges@.subrange(0, k as int)[w].0@ == dv[x]) || (x == dv.len() && !dv.contains(edges@.subrange(0, k as int)[w].0@)));
                                assert(prefix[w] == edges@[w]);
                                assert(edges@.subrange(0, k as int)[w] == edges@[w]);
                            } else {
                                assert(prefix[k as int] == edges@[k as int]);
                                assert(x == a as int && y == b as int);
                                if a == n {
                                    assert(!dv.contains(edges@[k as int].0@));
                                }
                            }
                        }
                        if kahn_edge(dv, prefix, x, y) {
                            let w = choose|w: int| 0 <= w < prefix.len() && #[trigger] prefix[w].1@ == dv[y] && (
                                (0 <= x < dv.len() && prefix[w].0@ == dv[x]) || (x == dv.len() && !dv.contains(prefix[w].0@)));
                            if w < k {
                                assert(prefix[w] == edges@.subrange(0, k as int)[w]);
                                assert(kahn_edge(dv, edges@.subrange(0, k as int), x, y));
                                let i = choose|i: int| 0 <= i < m0.len() && #[trigger] m0[i] == (x as usize, y as usize) && 0 <= x <= n && 0 <= y < n;
                                assert(mapped@[i] == m0[i]);
                            } else {
                                assert(prefix[w] == edges@[k as int]);
                                assert(dv[y] == dv[b as int]);
                                assert(y == b as int);
                                if 0 <= x < dv.len() && prefix[w].0@ == dv[x] {
                                    assert(a < n);
                                    assert(dv[x] == dv[a as int]);
                                    assert(x == a as int);
                                } else {
                                    if a < n {
                                        assert(dv.contains(prefix[w].0@)) by {
                                            assert(dv[a as int] == prefix[w].0@);
                                        }
                                    }
                                }
                                assert(mapped@[m0.len() as int] == (x as usize, y as usize));
                            }
                        }
                    }
                }
            },
            None => {
                proof {
                    assert forall|x: int, y: int| (exists|i: int| 0 <= i < mapped@.len() && #[trigger] mapped@[i] == (x as usize, y as usize)
                        && 0 <= x <= n && 0 <= y < n) <==> kahn_edge(dv, prefix, x, y) by {
                        if kahn_edge(dv, prefix, x, y) {
                            let w = choose|w: int| 0 <= w < prefix.len() && #[trigger] prefix[w].1@ == dv[y] && (
                                (0 <= x < dv.len() && prefix[w].0@ == dv[x]) || (x == dv.len() && !dv.contains(prefix[w].0@)));
                            if w < k {
                                assert(prefix[w] == edges@.subrange(0, k as int)[w]);
                                assert(kahn_edge(dv, edges@.subrange(0, k as int), x, y));
                            } else {
                                assert(prefix[w] == edges@[k as int]);
                                assert(dv[y] == d@[y]@);
                                assert(false);
                            }
                        }
                        if exists|i: int| 0 <= i < mapped@.len() && #[trigger] mapped@[i] == (x as usize, y as usize) && 0 <= x <= n && 0 <= y < n {
                            assert(kahn_edge(dv, edges@.subrange(0, k as int), x, y));
                            let w = choose|w: int| 0 <= w < k && #[trigger] edges@.subrange(0, k as int)[w].1@ == dv[y] && (
                                (0 <= x < dv.len() && edges@.subrange(0, k as int)[w].0@ == dv[x]) || (x == dv.len() && !dv.contains(edges@.subrange(0, k as int)[w].0@)));
                            assert(prefix[w] == edges@.subrange(0, k as int)[w]);
                        }
                    }
                }
            },
        }
        k = k + 1;
    }
    proof {
        assert(edges@.subrange(0, edges@.len() as int) =~= edges@);
    }
    proof {
        if nodes@.len() == 0 {
            assert(views(nodes@) =~= Seq::<Seq<char>>::empty());
            assert(n == 0);
            assert(every_node_entered(0, mapped@));
        }
    }
    let cycle = match has_directed_cycle(n, &mapped, execution) {
        Some(c) => c,
        None => return None,
    };
    proof {
        lemma_first_occurrences_len(views(nodes@));
        let e = mapped@;
        assert(dv.len() == n);
        assert(dv == first_occurrences(views(nodes@)));
        assert forall|x: int, y: int| (exists|k: int| 0 <= k < e.len() && #[trigger] e[k] == (x as usize, y as usize)
            && 0 <= x <= dv.len() && 0 <= y < dv.len()) <==> kahn_edge(dv, edges@, x, y) by {
            assert(edges@.subrange(0, k as int) == edges@);
        }
        assert forall|k: int| 0 <= k < e.len() implies #[trigger] e[k].0 <= dv.len() by {
            assert(mapped@[k].0 <= n);
        }
        assert(cycle == cyclic(dv.len() as int, e));
        if n == 0 {
            assert(!cyclic(0, e)) by {
                if cyclic(0, e) {
                    let st = choose|st: Set<int>| #[trigger] core_set(0, e, st);
                    let v = choose|v: int| st.contains(v);
                }
            }
        }
    }
    Some(cycle || n != nodes.len())
}

proof fn lemma_first_occurrences_len(v: Seq<Seq<char>>)
    ensures
        first_occurrences(v).len() <= v.len(),
    decreases v.len(),
{
    if v.len() > 0 {
        lemma_first_occurrences_len(v.drop_last());
    }
}

proof fn lemma_first_occurrences_head(v: Seq<Seq<char>>)
    requires
        v.len() > 0,
    ensures
        first_occurrences(v).len() > 0,
        first_occurrences(v)[0] == v[0],
    decreases v.len(),
{
    if v.len() > 1 {
        lemma_first_occurrences_head(v.drop_last());
        assert(v.drop_last()[0] == v[0]);
        let prev = first_occurrences(v.drop_last());
        if !prev.contains(v.last()) {
            assert(prev.push(v.last())[0] == prev[0]);
        }
    } else {
        assert(v.drop_last() =~= Seq::<Seq<char>>::empty());
        assert(first_occurrences(v.drop_last()) =~= Seq::<Seq<char>>::empty());
        assert(!first_occurrences(v.drop_last()).contains(v.last()));
        assert(first_occurrences(v) =~= seq![v[0]]);
    }
}

/// The relation types through which an evidence path counts as evidential.
pub open spec fn evidential_type(t: Seq<char>) -> bool {
    t == "supports"@ || t == "weakens"@ || t == "contradicts"@ || t == "consistent-with"@
        || t == "derived-from"@ || t == "generated"@
}

/// Whether a relation of this type makes an evidence path evidential.
pub fn evidential_relation(relation_type: &str) -> (r: bool)
    ensures
        r == evidential_type(relation_type@),
{
    proof {
        reveal_strlit("supports");
        reveal_strlit("weakens");
        reveal_strlit("contradicts");
        reveal_strlit("consistent-with");
        reveal_strlit("derived-from");
        reveal_strlit("generated");
    }
    str_eq(relation_type, "supports") || str_eq(relation_type, "weakens") || str_eq(relation_type, "contradicts")
        || str_eq(relation_type, "consistent-with") || str_eq(relation_type, "derived-from")
        || str_eq(relation_type, "generated")
}

/// A step of the path search: from node `p / 2` of `d`, having crossed an allowed
/// edge when `p` is odd, along an edge of `edges` to node `q / 2`, having crossed one
/// when `q` is odd.
pub open spec fn path_step(d: Seq<Seq<char>>, edges: Seq<(String, String)>, allowed: Seq<bool>, p: int, q: int) -> bool {
    0 <= p < 2 * d.len() && 0 <= q < 2 * d.len() && exists|k: int| 0 <= k < edges.len()
        && (#[trigger] edges[k]).0@ == d[p / 2] && edges[k].1@ == d[q / 2]
        && (q % 2 == 1) == (p % 2 == 1 || allowed[k])
}

/// Whether a path of one or more edges leads from `source` to `target` crossing at
/// least one edge marked in `allowed` (one mark per edge); `None` where the budget
/// stopped the search. The search runs over pairs of a node and whether an allowed
/// edge was crossed, from (`source`, no) to (`target`, yes).
pub fn path_to_target(
    source: &str,
    target: &str,
    edges: &Vec<(String, String)>,
    allowed: &Vec<bool>,
    execution: &ExecutionBudget,
) -> (r: Option<bool>)
    requires
        allowed@.len() == edges@.len(),
        edges@.len() < usize::MAX / 8,
    ensures
        r matches Some(b) ==> {
            let d = first_occurrences(seq![source@] + endpoint_views(edges@));
            exists|g: Seq<Seq<usize>>| {
                &&& g.len() == 2 * d.len()
                &&& d[0] == source@
                &&& forall|p: int, q: int| #[trigger] has_edge(g, p, q) <==> path_step(d, edges@, allowed@, p, q)
                &&& b == exists|t: int| 0 <= t < d.len() && d[t] == target@ && reachable(g, 0, 2 * t + 1)
            }
        },
{
    let mut ids: Vec<String> = Vec::new();
    ids.push(source.to_owned());
    let mut k: usize = 0;
    while k < edges.len()
        invariant
            k <= edges@.len(),
            views(ids@) == seq![source@] + endpoint_views(edges@.subrange(0, k as int)),
        decreases edges@.len() - k,
    {
        let ghost before = ids@;
        ids.push(edges[k].0.clone());
        ids.push(edges[k].1.clone());
        proof {
            let pre = edges@.subrange(0, k + 1);
            assert(pre.drop_last() =~= edges@.subrange(0, k as int));
            assert(pre.last() == edges@[k as int]);
            assert(views(ids@) =~= views(before).push(edges@[k as int].0@).push(edges@[k as int].1@));
        }
        k = k + 1;
    }
    proof {
        assert(edges@.subrange(0, edges@.len() as int) =~= edges@);
    }
    let d = distinct_ids(&ids);
    let ghost dv = views(d@);
    let ghost all = views(ids@);
    proof {
        lemma_first_occurrences(all);
        lemma_first_occurrences_head(all);
        assert(all[0] == source@);
    }
    let n = d.len();
    proof {
        lemma_first_occurrences_len(all);
        lemma_endpoints_len(edges@);
    }
    assert(0 < n <= 1 + 2 * edges@.len());
    let mut adj: Vec<Vec<usize>> = Vec::new();
    let mut z: usize = 0;
    while z < 2 * n
        invariant
            n == d@.len(),
            0 < n <= 1 + 2 * edges@.len(),
            edges@.len() < usize::MAX / 8,
            z <= 2 * n,
            adj@.len() == z,
            forall|x: int| 0 <= x < z ==> (#[trigger] adj@[x])@.len() == 0,
        decreases 2 * n - z,
    {
        adj.push(Vec::new());
        z = z + 1;
    }
    let mut j: usize = 0;
    while j < edges.len()
        invariant
            dv == views(d@),
            dv.no_duplicates(),
            all == seq![source@] + endpoint_views(edges@),
            forall|x: Seq<char>| #[trigger] dv.contains(x) <==> all.contains(x),
            n == d@.len(),
            0 < n <= 1 + 2 * edges@.len(),
            edges@.len() < usize::MAX / 8,
            adj@.len() == 2 * n,
            allowed@.len() == edges@.len(),
            j <= edges@.len(),
            adj_closed(adj_of(adj@)),
            forall|p: int, q: int| #[trigger] has_edge(adj_of(adj@), p, q) <==> path_step(dv, edges@.subrange(0, j as int), allowed@, p, q),
        decreases edges@.len() - j,
    {
        let ghost g0 = adj_of(adj@);
        proof {
            lemma_endpoints_listed(edges@, j as int);
            assert(all.contains(edges@[j as int].0@)) by {
                assert(all[1 + 2 * j] == edges@[j as int].0@);
            }
            assert(all.contains(edges@[j as int].1@)) by {
                assert(all[2 + 2 * j] == edges@[j as int].1@);
            }
        }
        let a = match position(&d, edges[j].0.as_str()) {
            Some(a) => a,
            None => {
                proof {
                    assert(dv.contains(edges@[j as int].0@));
                    let i = choose|i: int| 0 <= i < dv.len() && dv[i] == edges@[j as int].0@;
                    assert(d@[i]@ == dv[i]);
                }
                return None;
            },
        };
        let b = match position(&d, edges[j].1.as_str()) {
            Some(b) => b,
            None => {
                proof {
                    assert(dv.contains(edges@[j as int].1@));
                    let i = choose|i: int| 0 <= i < dv.len() && dv[i] == edges@[j as int].1@;
                    assert(d@[i]@ == dv[i]);
                }
                return None;
            },
        };
        let lift: usize = if allowed[j] { 1 } else { 0 };
        push_successor(&mut adj, 2 * a, 2 * b + lift);
        let ghost g1 = adj_of(adj@);
        push_successor(&mut adj, 2 * a + 1, 2 * b + 1);
        proof {
            let g2 = adj_of(adj@);
            let pre = edges@.subrange(0, j + 1);
            assert(dv[a as int] == d@[a as int]@);
            assert(dv[b as int] == d@[b as int]@);
            assert forall|p: int, q: int| #[trigger] has_edge(g2, p, q) <==> path_step(dv, pre, allowed@, p, q) by {
                if has_edge(g2, p, q) {
                    let m = choose|m: int| 0 <= m < g2[p].len() && g2[p][m] as int == q;
                    if p == 2 * a + 1 && m == g1[p].len() {
                        assert(pre[j as int] == edges@[j as int]);
                        assert(p / 2 == a as int && q / 2 == b as int);
                    } else if p == 2 * a && m == g0[p].len() {
                        assert(g1[p][m] == g2[p][m]);
                        assert(pre[j as int] == edges@[j as int]);
                        assert(p / 2 == a as int && q / 2 == b as int);
                    } else {
                        assert(g0[p][m] == g2[p][m]);
                        assert(has_edge(g0, p, q));
                        let w = choose|w: int| 0 <= w < edges@.subrange(0, j as int).len()
                            && (#[trigger] edges@.subrange(0, j as int)[w]).0@ == dv[p / 2]
                            && edges@.subrange(0, j as int)[w].1@ == dv[q / 2]
                            && (q % 2 == 1) == (p % 2 == 1 || allowed@[w]);
                        assert(pre[w] == edges@.subrange(0, j as int)[w]);
                    }
                }
                if path_step(dv, pre, allowed@, p, q) {
                    let w = choose|w: int| 0 <= w < pre.len() && (#[trigger] pre[w]).0@ == dv[p / 2]
                        && pre[w].1@ == dv[q / 2] && (q % 2 == 1) == (p % 2 == 1 || allowed@[w]);
                    if w < j {
                        assert(pre[w] == edges@.subrange(0, j as int)[w]);
                        assert(path_step(dv, edges@.subrange(0, j as int), allowed@, p, q));
                        assert(has_edge(g0, p, q));
                        let m = choose|m: int| 0 <= m < g0[p].len() && g0[p][m] as int == q;
                        assert(g2[p][m] == g0[p][m]);
                    } else {
                        assert(pre[w] == edges@[j as int]);
                        lemma_distinct_views(d@, p / 2, a as int);
                        lemma_distinct_views(d@, q / 2, b as int);
                        if p % 2 == 1 {
                            assert(p == 2 * a + 1);
                            assert(q == 2 * b + 1);
                            assert(g2[p][g1[p].len() as int] as int == q);
                        } else {
                            assert(p == 2 * a);
                            assert(q == 2 * b + lift);
                            assert(g2[p][g0[p].len() as int] as int == q);
                        }
                    }
                }
            }
            assert forall|x: int, m: int| 0 <= x < g2.len() && 0 <= m < g2[x].len() implies #[trigger] g2[x][m] < g2.len() by {
                if !(x == 2 * a + 1 && m == g1[x].len()) && !(x == 2 * a && m == g0[x].len()) {
                    assert(g2[x][m] == g0[x][m]);
                }
            }
        }
        j = j + 1;
    }
    proof {
        assert(edges@.subrange(0, edges@.len() as int) =~= edges@);
    }
    let seen = match reach_from(&adj, 0, execution) {
        Some(seen) => seen,
        None => return None,
    };
    let ghost g = adj_of(adj@);
    proof {
        let dd = first_occurrences(seq![source@] + endpoint_views(edges@));
        assert(dd == dv);
        assert(g.len() == 2 * dd.len());
        assert(dd[0] == source@);
        assert(forall|p: int, q: int| #[trigger] has_edge(g, p, q) <==> path_step(dd, edges@, allowed@, p, q));
    }
    match position(&d, target) {
        None => {
            proof {
                assert forall|t: int| 0 <= t < dv.len() implies dv[t] != target@ by {
                    assert(dv[t] == d@[t]@);
                }
            }
            Some(false)
        },
        Some(t) => {
            let found = seen[2 * t + 1];
            proof {
                assert(dv[t as int] == d@[t as int]@);
                assert(found == reachable(g, 0, 2 * t + 1));
                assert forall|u: int| 0 <= u < dv.len() && dv[u] == target@ implies u == t by {
                    assert(dv[u] == d@[u]@);
                    lemma_distinct_views(d@, u, t as int);
                }
            }
            Some(found)
        },
    }
}

/// The endpoints of the edges, from then to, edge by edge.
pub open spec fn endpoint_views(edges: Seq<(String, String)>) -> Seq<Seq<char>>
    decreases edges.len(),
{
    if edges.len() == 0 {
        Seq::empty()
    } else {
        endpoint_views(edges.drop_last()).push(edges.last().0@).push(edges.last().1@)
    }
}

proof fn lemma_endpoints_listed(edges: Seq<(String, String)>, j: int)
    requires
        0 <= j < edges.len(),
    ensures
        endpoint_views(edges).len() == 2 * edges.len(),
        endpoint_views(edges)[2 * j] == edges[j].0@,
        endpoint_views(edges)[2 * j + 1] == edges[j].1@,
    decreases edges.len(),
{
    lemma_endpoints_len(edges.drop_last());
    if j < edges.len() - 1 {
        lemma_endpoints_listed(edges.drop_last(), j);
    }
}

proof fn lemma_endpoints_len(edges: Seq<(String, String)>)
    ensures
        endpoint_views(edges).len() == 2 * edges.len(),
    decreases edges.len(),
{
    if edges.len() > 0 {
        lemma_endpoints_len(edges.drop_last());
    }
}


/// A claim-chain diagnostic at `pointer` of the chain file `source_file`.
pub fn chain_finding(
    source_file: ProjectPath,
    code: &'static str,
    family: &'static str,
    message: &str,
    pointer: &str,
) -> (f: Finding)
    ensures
        f.error_code == code,
        f.finding_family == family,
        f.severity == Severity::Error,
        f.message@ == sanitized(message@),
        f.source_file == Some(source_file),
        f.json_pointer@ == pointer@,
{
    Finding::new(code, family, Severity::Error, message, Some(source_file), pointer)
}

} // verus!
