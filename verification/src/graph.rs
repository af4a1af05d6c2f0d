//! Reachability over adjacency lists and the graph rules built on it.
use vstd::prelude::*;

use crate::execution::ExecutionBudget;

verus! {

/// There is a reference from `a` to `b`.
pub open spec fn has_edge(adj: Seq<Seq<usize>>, a: int, b: int) -> bool {
    0 <= a < adj.len() && exists|k: int| 0 <= k < adj[a].len() && adj[a][k] as int == b
}

/// `t` is at the end of a path of one to `n` references from `s`.
pub open spec fn reach_within(adj: Seq<Seq<usize>>, s: int, t: int, n: nat) -> bool
    decreases n,
{
    if n <= 1 {
        n == 1 && has_edge(adj, s, t)
    } else {
        reach_within(adj, s, t, (n - 1) as nat) || exists|m: int|
            #![trigger has_edge(adj, m, t)]
            reach_within(adj, s, m, (n - 1) as nat) && has_edge(adj, m, t)
    }
}

/// `t` is at the end of a path of at least one reference from `s`.
pub open spec fn reachable(adj: Seq<Seq<usize>>, s: int, t: int) -> bool {
    exists|n: nat| n >= 1 && #[trigger] reach_within(adj, s, t, n)
}

/// In a graph whose successors are all nodes, whatever a path reaches is a node.
pub proof fn lemma_reach_in_range(adj: Seq<Seq<usize>>, s: int, t: int, n: nat)
    requires
        adj_closed(adj),
        reach_within(adj, s, t, n),
    ensures
        0 <= t < adj.len(),
    decreases n,
{
    if n <= 1 {
        let k = choose|k: int| 0 <= k < adj[s].len() && adj[s][k] as int == t;
    } else if reach_within(adj, s, t, (n - 1) as nat) {
        lemma_reach_in_range(adj, s, t, (n - 1) as nat);
    } else {
        let m = choose|m: int| reach_within(adj, s, m, (n - 1) as nat) && has_edge(adj, m, t);
        let k = choose|k: int| 0 <= k < adj[m].len() && adj[m][k] as int == t;
    }
}

pub proof fn lemma_reach_step(adj: Seq<Seq<usize>>, s: int, u: int, t: int)
    requires
        u == s || reachable(adj, s, u),
        has_edge(adj, u, t),
    ensures
        reachable(adj, s, t),
{
    if u == s {
        assert(reach_within(adj, s, t, 1));
    } else {
        let n = choose|n: nat| n >= 1 && #[trigger] reach_within(adj, s, u, n);
        assert(reach_within(adj, s, u, n) && has_edge(adj, u, t));
        assert(reach_within(adj, s, t, n + 1));
    }
}

/// A list without repeats of numbers below `n` has at most `n` entries.
pub proof fn lemma_unique_bound(q: Seq<usize>, n: int)
    requires
        0 <= n,
        q.no_duplicates(),
        forall|k: int| 0 <= k < q.len() ==> #[trigger] q[k] < n,
    ensures
        q.len() <= n,
{
    let qi = q.map_values(|x: usize| x as int);
    assert forall|a: int, b: int| 0 <= a < b < qi.len() implies qi[a] != qi[b] by {
        assert(q[a] != q[b]);
    }
    qi.unique_seq_to_set();
    {
        vstd::set_lib::lemma_int_range(0, n);
        assert forall|x: int| qi.to_set().contains(x) implies vstd::set_lib::set_int_range(0, n).contains(x) by {
            let k = choose|k: int| 0 <= k < qi.len() && qi[k] == x;
            assert(q[k] < n);
        }
        assert(qi.to_set().subset_of(vstd::set_lib::set_int_range(0, n)));
        vstd::set_lib::lemma_len_subset(qi.to_set(), vstd::set_lib::set_int_range(0, n));
        assert(qi.len() == q.len());
    }
}

pub proof fn lemma_closed_contains(adj: Seq<Seq<usize>>, s: int, vis: Set<int>, t: int, n: nat)
    requires
        vis.contains(s),
        forall|u: int, v: int| vis.contains(u) && #[trigger] has_edge(adj, u, v) ==> vis.contains(v),
        reach_within(adj, s, t, n),
    ensures
        vis.contains(t),
    decreases n,
{
    if n > 1 {
        if reach_within(adj, s, t, (n - 1) as nat) {
            lemma_closed_contains(adj, s, vis, t, (n - 1) as nat);
        } else {
            let m = choose|m: int| reach_within(adj, s, m, (n - 1) as nat) && has_edge(adj, m, t);
            lemma_closed_contains(adj, s, vis, m, (n - 1) as nat);
        }
    }
}

/// The adjacency lists as sequences.
pub open spec fn adj_of(adj: Seq<Vec<usize>>) -> Seq<Seq<usize>> {
    Seq::new(adj.len(), |i: int| adj[i]@)
}

/// Every listed successor is a node of the graph.
pub open spec fn adj_closed(adj: Seq<Seq<usize>>) -> bool {
    forall|a: int, k: int| 0 <= a < adj.len() && 0 <= k < adj[a].len() ==> #[trigger] adj[a][k] < adj.len()
}

/// Breadth-first search: the nodes that `start` reaches (with `start` itself), or
/// `None` where the budget stopped the search.
pub fn reach_from(adj: &Vec<Vec<usize>>, start: usize, execution: &ExecutionBudget) -> (r: Option<Vec<bool>>)
    requires
        start < adj@.len(),
        adj_closed(adj_of(adj@)),
    ensures
        r matches Some(seen) ==> {
            &&& seen@.len() == adj@.len()
            &&& forall|x: int| 0 <= x < adj@.len() ==> (#[trigger] seen@[x] <==> (x == start || reachable(adj_of(adj@), start as int, x)))
        },
{
    let n = adj.len();
    let ghost g = adj_of(adj@);
    let mut seen: Vec<bool> = Vec::new();
    let mut z: usize = 0;
    while z < n
        invariant
            z <= n,
            seen@.len() == z,
            forall|x: int| 0 <= x < z ==> !#[trigger] seen@[x],
        decreases n - z,
    {
        seen.push(false);
        z = z + 1;
    }
    seen.set(start, true);
    let mut queue: Vec<usize> = Vec::new();
    queue.push(start);
    let mut head: usize = 0;
    proof {
        assert forall|x: int| 0 <= x < n implies (#[trigger] seen@[x] <==> exists|k: int| 0 <= k < queue@.len() && queue@[k] as int == x) by {
            if x == start as int {
                assert(queue@[0] as int == x);
            }
        }
    }
    while head < queue.len()
        invariant
            g == adj_of(adj@),
            adj_closed(g),
            n == adj@.len(),
            start < n,
            seen@.len() == n,
            1 <= queue@.len() <= n,
            head <= queue@.len(),
            queue@[0] == start,
            queue@.no_duplicates(),
            forall|k: int| 0 <= k < queue@.len() ==> #[trigger] queue@[k] < n,
            forall|x: int| 0 <= x < n ==> (#[trigger] seen@[x] <==> exists|k: int| 0 <= k < queue@.len() && queue@[k] as int == x),
            forall|k: int| 1 <= k < queue@.len() ==> reachable(g, start as int, #[trigger] queue@[k] as int),
            forall|k: int, b: int| 0 <= k < head && #[trigger] has_edge(g, queue@[k] as int, b) ==> seen@[b],
        decreases n - head, n - queue@.len(),
    {
        if let Err(_) = execution.checkpoint() {
            return None;
        }
        let u = queue[head];
        let succ = &adj[u];
        let mut j: usize = 0;
        while j < succ.len()
            invariant
                g == adj_of(adj@),
                adj_closed(g),
                n == adj@.len(),
                start < n,
                u < n,
                succ@ == g[u as int],
                j <= succ@.len(),
                seen@.len() == n,
                1 <= queue@.len() <= n,
                head < queue@.len(),
                queue@[head as int] == u,
                queue@[0] == start,
                queue@.no_duplicates(),
                forall|k: int| 0 <= k < queue@.len() ==> #[trigger] queue@[k] < n,
                forall|x: int| 0 <= x < n ==> (#[trigger] seen@[x] <==> exists|k: int| 0 <= k < queue@.len() && queue@[k] as int == x),
                forall|k: int| 1 <= k < queue@.len() ==> reachable(g, start as int, #[trigger] queue@[k] as int),
                forall|k: int, b: int| 0 <= k < head && #[trigger] has_edge(g, queue@[k] as int, b) ==> seen@[b],
                forall|m: int| 0 <= m < j ==> seen@[#[trigger] succ@[m] as int],
            decreases succ@.len() - j,
        {
            if let Err(_) = execution.checkpoint() {
                return None;
            }
            let t = succ[j];
            proof {
                assert(g[u as int][j as int] == t);
            }
            if !seen[t] {
                let ghost q0 = queue@;
                proof {
                    assert(has_edge(g, u as int, t as int));
                    if head > 0 {
                        assert(reachable(g, start as int, queue@[head as int] as int));
                    }
                    lemma_reach_step(g, start as int, u as int, t as int);
                    assert forall|k: int| 0 <= k < q0.len() implies q0[k] != t by {
                        if q0[k] == t {
                            assert(seen@[t as int]);
                        }
                    }
                }
                seen.set(t, true);
                queue.push(t);
                proof {
                    let q1 = queue@;
                    assert(q1.drop_last() == q0);
                    assert forall|a: int, b: int| 0 <= a < b < q1.len() implies q1[a] != q1[b] by {
                        assert(q1[a] == q0[a]);
                        if b < q0.len() {
                            assert(q1[b] == q0[b]);
                        }
                    }
                    assert forall|k: int| 0 <= k < q1.len() implies #[trigger] q1[k] < n by {
                        if k < q0.len() {
                            assert(q1[k] == q0[k]);
                        }
                    }
                    lemma_unique_bound(q1, n as int);
                    assert forall|x: int| 0 <= x < n implies (#[trigger] seen@[x] <==> exists|k: int| 0 <= k < q1.len() && q1[k] as int == x) by {
                        if x == t as int {
                            assert(q1[q0.len() as int] as int == x);
                        } else if seen@[x] {
                            let k = choose|k: int| 0 <= k < q0.len() && q0[k] as int == x;
                            assert(q1[k] == q0[k]);
                        } else {
                            if exists|k: int| 0 <= k < q1.len() && q1[k] as int == x {
                                let k = choose|k: int| 0 <= k < q1.len() && q1[k] as int == x;
                                if k < q0.len() {
                                    assert(q1[k] == q0[k]);
                                }
                            }
                        }
                    }
                    assert forall|k: int| 1 <= k < q1.len() implies reachable(g, start as int, #[trigger] q1[k] as int) by {
                        if k < q0.len() {
                            assert(q1[k] == q0[k]);
                        }
                    }
                    assert forall|k: int, b: int| 0 <= k < head && #[trigger] has_edge(g, q1[k] as int, b) implies seen@[b] by {
                        assert(q1[k] == q0[k]);
                        assert(has_edge(g, q0[k] as int, b));
                    }
                }
            }
            j = j + 1;
        }
        proof {
            assert forall|k: int, b: int| 0 <= k < head + 1 && #[trigger] has_edge(g, queue@[k] as int, b) implies seen@[b] by {
                if k == head as int {
                    let w = choose|w: int| 0 <= w < g[u as int].len() && g[u as int][w] as int == b;
                    assert(seen@[succ@[w] as int]);
                }
            }
        }
        head = head + 1;
    }
    proof {
        let q = queue@;
        let vis = Set::new(|x: int| 0 <= x < n && seen@[x]);
        assert forall|u: int, v: int| vis.contains(u) && #[trigger] has_edge(g, u, v) implies vis.contains(v) by {
            let k = choose|k: int| 0 <= k < q.len() && q[k] as int == u;
            assert(has_edge(g, q[k] as int, v));
            let w = choose|w: int| 0 <= w < g[u].len() && g[u][w] as int == v;
            assert(g[u][w] < n);
        }
        assert(seen@[start as int]);
        assert forall|x: int| 0 <= x < n implies (#[trigger] seen@[x] <==> (x == start || reachable(g, start as int, x))) by {
            if reachable(g, start as int, x) {
                let m = choose|m: nat| m >= 1 && #[trigger] reach_within(g, start as int, x, m);
                lemma_closed_contains(g, start as int, vis, x, m);
            }
            if seen@[x] && x != start {
                let k = choose|k: int| 0 <= k < q.len() && q[k] as int == x;
                assert(k != 0);
            }
        }
    }
    Some(seen)
}

/// `a` and `b` are the same node or a path leads from `a` to `b`.
pub open spec fn connected(adj: Seq<Seq<usize>>, a: int, b: int) -> bool {
    a == b || reachable(adj, a, b)
}

/// Every reference is matched by one in the opposite direction.
pub open spec fn symmetric(adj: Seq<Seq<usize>>) -> bool {
    forall|a: int, b: int| #[trigger] has_edge(adj, a, b) ==> has_edge(adj, b, a)
}

/// `v` is the first node of its component.
pub open spec fn is_leader(adj: Seq<Seq<usize>>, v: int) -> bool {
    forall|u: int| 0 <= u < v ==> !#[trigger] connected(adj, u, v)
}

/// The number of components among nodes `0..k`, counted by their first nodes.
pub open spec fn leaders_below(adj: Seq<Seq<usize>>, k: int) -> nat
    decreases k,
{
    if k <= 0 {
        0
    } else {
        leaders_below(adj, k - 1) + if is_leader(adj, k - 1) { 1nat } else { 0nat }
    }
}

pub proof fn lemma_reach_prepend(adj: Seq<Seq<usize>>, a: int, b: int, c: int, n: nat)
    requires
        has_edge(adj, a, b),
        reach_within(adj, b, c, n),
    ensures
        reach_within(adj, a, c, n + 1),
    decreases n,
{
    if n <= 1 {
        assert(reach_within(adj, a, b, 1));
        assert(reach_within(adj, a, b, 1) && has_edge(adj, b, c));
    } else if reach_within(adj, b, c, (n - 1) as nat) {
        lemma_reach_prepend(adj, a, b, c, (n - 1) as nat);
    } else {
        let m = choose|m: int| reach_within(adj, b, m, (n - 1) as nat) && has_edge(adj, m, c);
        lemma_reach_prepend(adj, a, b, m, (n - 1) as nat);
        assert(reach_within(adj, a, m, n) && has_edge(adj, m, c));
    }
}

pub proof fn lemma_reach_symmetric(adj: Seq<Seq<usize>>, s: int, t: int, n: nat)
    requires
        symmetric(adj),
        reach_within(adj, s, t, n),
    ensures
        reach_within(adj, t, s, n),
    decreases n,
{
    if n <= 1 {
        assert(has_edge(adj, t, s));
    } else if reach_within(adj, s, t, (n - 1) as nat) {
        lemma_reach_symmetric(adj, s, t, (n - 1) as nat);
        lemma_reach_widen(adj, t, s, (n - 1) as nat);
    } else {
        let m = choose|m: int| reach_within(adj, s, m, (n - 1) as nat) && has_edge(adj, m, t);
        lemma_reach_symmetric(adj, s, m, (n - 1) as nat);
        assert(has_edge(adj, t, m));
        lemma_reach_prepend(adj, t, m, s, (n - 1) as nat);
    }
}

pub proof fn lemma_reach_widen(adj: Seq<Seq<usize>>, s: int, t: int, n: nat)
    requires
        reach_within(adj, s, t, n),
    ensures
        reach_within(adj, s, t, n + 1),
{
}

pub proof fn lemma_reach_append(adj: Seq<Seq<usize>>, a: int, b: int, c: int, n: nat, m: nat)
    requires
        reach_within(adj, a, b, n),
        reach_within(adj, b, c, m),
    ensures
        reach_within(adj, a, c, n + m),
    decreases m,
{
    if m <= 1 {
        assert(reach_within(adj, a, b, n) && has_edge(adj, b, c));
    } else if reach_within(adj, b, c, (m - 1) as nat) {
        lemma_reach_append(adj, a, b, c, n, (m - 1) as nat);
        lemma_reach_widen(adj, a, c, (n + m - 1) as nat);
    } else {
        let k = choose|k: int| reach_within(adj, b, k, (m - 1) as nat) && has_edge(adj, k, c);
        lemma_reach_append(adj, a, b, k, n, (m - 1) as nat);
        assert(reach_within(adj, a, k, (n + m - 1) as nat) && has_edge(adj, k, c));
    }
}

/// On a symmetric graph, being connected is symmetric and transitive.
pub proof fn lemma_connected_laws(adj: Seq<Seq<usize>>, a: int, b: int, c: int)
    requires
        symmetric(adj),
    ensures
        connected(adj, a, b) ==> connected(adj, b, a),
        connected(adj, a, b) && connected(adj, b, c) ==> connected(adj, a, c),
{
    if connected(adj, a, b) && a != b {
        let n = choose|n: nat| n >= 1 && #[trigger] reach_within(adj, a, b, n);
        lemma_reach_symmetric(adj, a, b, n);
    }
    if connected(adj, a, b) && connected(adj, b, c) && a != b && b != c {
        let n = choose|n: nat| n >= 1 && #[trigger] reach_within(adj, a, b, n);
        let m = choose|m: nat| m >= 1 && #[trigger] reach_within(adj, b, c, m);
        lemma_reach_append(adj, a, b, c, n, m);
    }
}

/// The number of weakly connected components of a symmetric graph, or `None` where
/// the budget stopped the count.
pub fn component_count(adj: &Vec<Vec<usize>>, execution: &ExecutionBudget) -> (r: Option<usize>)
    requires
        adj_closed(adj_of(adj@)),
        symmetric(adj_of(adj@)),
    ensures
        r matches Some(c) ==> c == leaders_below(adj_of(adj@), adj@.len() as int),
        adj@.len() == 0 ==> r == Some(0usize),
{
    let n = adj.len();
    let ghost g = adj_of(adj@);
    let mut seen: Vec<bool> = Vec::new();
    let mut z: usize = 0;
    while z < n
        invariant
            z <= n,
            seen@.len() == z,
            forall|x: int| 0 <= x < z ==> !#[trigger] seen@[x],
        decreases n - z,
    {
        seen.push(false);
        z = z + 1;
    }
    let mut count: usize = 0;
    let mut i: usize = 0;
    while i < n
        invariant
            g == adj_of(adj@),
            adj_closed(g),
            symmetric(g),
            n == adj@.len(),
            i <= n,
            seen@.len() == n,
            count <= i,
            count == leaders_below(g, i as int),
            forall|x: int| 0 <= x < n ==> (#[trigger] seen@[x] <==> exists|u: int| 0 <= u < i && connected(g, u, x)),
        decreases n - i,
    {
        if let Err(_) = execution.checkpoint() {
            return None;
        }
        if !seen[i] {
            proof {
                assert forall|u: int| 0 <= u < i implies !#[trigger] connected(g, u, i as int) by {
                    if connected(g, u, i as int) {
                        assert(seen@[i as int]);
                    }
                }
                assert(is_leader(g, i as int));
            }
            let comp = match reach_from(adj, i, execution) {
                Some(c) => c,
                None => return None,
            };
            let ghost before = seen@;
            let mut x: usize = 0;
            while x < n
                invariant
                    g == adj_of(adj@),
                    n == adj@.len(),
                    x <= n,
                    comp@.len() == n,
                    seen@.len() == n,
                    forall|y: int| 0 <= y < n ==> (#[trigger] comp@[y] <==> (y == i || reachable(g, i as int, y))),
                    forall|y: int| 0 <= y < n ==> (#[trigger] seen@[y] <==> (before[y] || (y < x && comp@[y]))),
                decreases n - x,
            {
                if comp[x] {
                    seen.set(x, true);
                }
                x = x + 1;
            }
            count = count + 1;
            proof {
                assert forall|y: int| 0 <= y < n implies (#[trigger] seen@[y] <==> exists|u: int| 0 <= u < i + 1 && connected(g, u, y)) by {
                    if comp@[y] {
                        assert(connected(g, i as int, y));
                    }
                    if exists|u: int| 0 <= u < i + 1 && connected(g, u, y) {
                        let u = choose|u: int| 0 <= u < i + 1 && connected(g, u, y);
                        if u == i as int {
                            assert(comp@[y]);
                        } else {
                            assert(before[y]);
                        }
                    }
                }
            }
        } else {
            proof {
                let w = choose|u: int| 0 <= u < i && connected(g, u, i as int);
                assert(!is_leader(g, i as int)) by {
                    assert(connected(g, w, i as int));
                }
                assert forall|y: int| 0 <= y < n implies (#[trigger] seen@[y] <==> exists|u: int| 0 <= u < i + 1 && connected(g, u, y)) by {
                    if exists|u: int| 0 <= u < i + 1 && connected(g, u, y) {
                        let u = choose|u: int| 0 <= u < i + 1 && connected(g, u, y);
                        if u == i as int {
                            lemma_connected_laws(g, w, i as int, y);
                            assert(connected(g, w, y));
                        }
                    }
                }
            }
        }
        i = i + 1;
    }
    Some(count)
}

/// `v` occurs in `q`.
pub open spec fn listed(q: Seq<usize>, v: int) -> bool {
    exists|k: int| 0 <= k < q.len() && q[k] as int == v
}

/// Edge `edge` still holds back node `v`: it leads to `v` from a node not yet taken
/// (or from outside the nodes), and was not already released by the scan of `u`.
pub open spec fn holds_back(edge: (usize, usize), v: int, done: Set<int>, u: int, scanned: bool) -> bool {
    edge.1 == v && !done.contains(edge.0 as int) && !(edge.0 == u && scanned)
}

/// How many of the first `m` edges hold back `v` while `u` is scanned up to edge `j`.
pub open spec fn waiting(e: Seq<(usize, usize)>, v: int, done: Set<int>, u: int, j: int, m: int) -> nat
    decreases m,
{
    if m <= 0 {
        0
    } else {
        waiting(e, v, done, u, j, m - 1) + if holds_back(e[m - 1], v, done, u, m - 1 < j) {
            1nat
        } else {
            0nat
        }
    }
}

/// Some nonempty set of nodes in which every node has an incoming edge from the set
/// or from outside the node range. Between nodes of the range this is exactly a
/// directed cycle: walking such edges backwards never leaves the set.
pub open spec fn cyclic(n: int, e: Seq<(usize, usize)>) -> bool {
    exists|s: Set<int>| #[trigger] core_set(n, e, s)
}

pub open spec fn core_set(n: int, e: Seq<(usize, usize)>, s: Set<int>) -> bool {
    &&& exists|v: int| s.contains(v)
    &&& forall|v: int| #[trigger] s.contains(v) ==> 0 <= v < n && exists|k: int|
        0 <= k < e.len() && e[k].1 == v && (e[k].0 >= n || s.contains(e[k].0 as int))
}

proof fn lemma_waiting_step(e: Seq<(usize, usize)>, v: int, done: Set<int>, u: int, j: int, m: int)
    requires
        0 <= j,
    ensures
        waiting(e, v, done, u, j + 1, m) + (if j < m && e[j].0 == u && e[j].1 == v && !done.contains(u) {
            1int
        } else {
            0int
        }) == waiting(e, v, done, u, j, m),
    decreases m,
{
    if m > 0 {
        lemma_waiting_step(e, v, done, u, j, m - 1);
    }
}

proof fn lemma_waiting_finish(e: Seq<(usize, usize)>, v: int, done: Set<int>, u: int, m: int)
    requires
        m <= e.len(),
    ensures
        waiting(e, v, done, u, e.len() as int, m) == waiting(e, v, done.insert(u), -1, 0, m),
    decreases m,
{
    if m > 0 {
        lemma_waiting_finish(e, v, done, u, m - 1);
    }
}

proof fn lemma_waiting_zero(e: Seq<(usize, usize)>, v: int, done: Set<int>, u: int, j: int, m: int, k: int)
    requires
        waiting(e, v, done, u, j, m) == 0,
        0 <= k < m,
    ensures
        !holds_back(e[k], v, done, u, k < j),
    decreases m,
{
    if k < m - 1 {
        lemma_waiting_zero(e, v, done, u, j, m - 1, k);
    }
}

proof fn lemma_waiting_positive(e: Seq<(usize, usize)>, v: int, done: Set<int>, u: int, j: int, m: int) -> (k: int)
    requires
        waiting(e, v, done, u, j, m) > 0,
    ensures
        0 <= k < m,
        holds_back(e[k], v, done, u, k < j),
    decreases m,
{
    if holds_back(e[m - 1], v, done, u, m - 1 < j) {
        m - 1
    } else {
        lemma_waiting_positive(e, v, done, u, j, m - 1)
    }
}

proof fn lemma_waiting_unscanned(e: Seq<(usize, usize)>, v: int, done: Set<int>, u: int, m: int)
    ensures
        waiting(e, v, done, u, 0, m) == waiting(e, v, done, -1, 0, m),
    decreases m,
{
    if m > 0 {
        lemma_waiting_unscanned(e, v, done, u, m - 1);
    }
}

/// A list without repeats of `n` numbers below `n` holds every one of them.
proof fn lemma_full_cover(q: Seq<usize>, n: int, v: int)
    requires
        0 <= v < n,
        q.no_duplicates(),
        q.len() >= n,
        forall|k: int| 0 <= k < q.len() ==> #[trigger] q[k] < n,
    ensures
        listed(q, v),
{
    if !listed(q, v) {
        let qi = q.map_values(|x: usize| x as int);
        assert forall|a: int, b: int| 0 <= a < b < qi.len() implies qi[a] != qi[b] by {
            assert(q[a] != q[b]);
        }
        qi.unique_seq_to_set();
        vstd::set_lib::lemma_int_range(0, n);
        let range = vstd::set_lib::set_int_range(0, n).remove(v);
        assert forall|x: int| qi.to_set().contains(x) implies range.contains(x) by {
            let k = choose|k: int| 0 <= k < qi.len() && qi[k] == x;
            assert(q[k] < n);
            if x == v {
                assert(q[k] as int == v);
                assert(listed(q, v));
            }
        }
        assert(qi.to_set().subset_of(range));
        vstd::set_lib::lemma_len_subset(qi.to_set(), range);
        assert(qi.len() == q.len());
    }
}

/// A list without repeats that holds every number below `n` has at least `n` entries.
proof fn lemma_cover_bound(q: Seq<usize>, n: int)
    requires
        0 <= n,
        forall|v: int| 0 <= v < n ==> #[trigger] listed(q, v),
    ensures
        q.len() >= n,
{
    let qi = q.map_values(|x: usize| x as int);
    vstd::set_lib::lemma_int_range(0, n);
    assert forall|x: int| vstd::set_lib::set_int_range(0, n).contains(x) implies qi.to_set().contains(x) by {
        assert(listed(q, x));
        let k = choose|k: int| 0 <= k < q.len() && q[k] as int == x;
        assert(qi[k] == x);
    }
    qi.lemma_cardinality_of_set();
    vstd::set_lib::lemma_len_subset(vstd::set_lib::set_int_range(0, n), qi.to_set());
}

/// Node `v` is the target of some edge.
pub open spec fn entered(e: Seq<(usize, usize)>, v: int) -> bool {
    exists|k: int| 0 <= k < e.len() && (#[trigger] e[k]).1 as int == v
}

/// Every node below `n` is the target of some edge.
pub open spec fn every_node_entered(n: int, e: Seq<(usize, usize)>) -> bool {
    forall|v: int| 0 <= v < n ==> #[trigger] entered(e, v)
}

/// Kahn's algorithm over nodes `0..n`: whether some nodes can never be taken because
/// an edge from a node not yet taken (or from outside the range) holds each of them
/// back, or `None` where the budget stopped it. Every edge must end at a node.
pub fn has_directed_cycle(n: usize, edges: &Vec<(usize, usize)>, execution: &ExecutionBudget) -> (r: Option<bool>)
    requires
        forall|k: int| 0 <= k < edges@.len() ==> #[trigger] edges@[k].1 < n,
    ensures
        r matches Some(b) ==> b == cyclic(n as int, edges@),
        every_node_entered(n as int, edges@) ==> r is Some,
{
    let ghost e = edges@;
    let ghost none = Set::<int>::empty();
    let mut indeg: Vec<usize> = Vec::new();
    let mut z: usize = 0;
    while z < n
        invariant
            z <= n,
            indeg@.len() == z,
            forall|x: int| 0 <= x < z ==> #[trigger] indeg@[x] == 0,
        decreases n - z,
    {
        indeg.push(0);
        z = z + 1;
    }
    let mut k: usize = 0;
    while k < edges.len()
        invariant
            e == edges@,
            none == Set::<int>::empty(),
            k <= e.len(),
            indeg@.len() == n,
            forall|i: int| 0 <= i < e.len() ==> #[trigger] e[i].1 < n,
            forall|v: int| 0 <= v < n ==> #[trigger] indeg@[v] == waiting(e, v, none, -1, 0, k as int),
            forall|v: int| 0 <= v < n ==> #[trigger] indeg@[v] <= k,
        decreases e.len() - k,
    {
        let to = edges[k].1;
        let d = indeg[to];
        indeg.set(to, d + 1);
        proof {
            assert forall|v: int| 0 <= v < n implies #[trigger] waiting(e, v, none, -1, 0, k + 1)
                == waiting(e, v, none, -1, 0, k as int) + (if e[k as int].1 == v { 1int } else { 0int }) by {
                assert(!none.contains(e[k as int].0 as int));
            }
        }
        k = k + 1;
    }
    let mut queue: Vec<usize> = Vec::new();
    let mut v0: usize = 0;
    while v0 < n
        invariant
            v0 <= n,
            indeg@.len() == n,
            queue@.no_duplicates(),
            forall|i: int| 0 <= i < queue@.len() ==> #[trigger] queue@[i] < v0,
            forall|x: int| 0 <= x < v0 ==> (#[trigger] indeg@[x] == 0 <==> listed(queue@, x)),
        decreases n - v0,
    {
        if indeg[v0] == 0 {
            let ghost q0 = queue@;
            queue.push(v0);
            proof {
                assert forall|a: int, b: int| 0 <= a < b < queue@.len() implies queue@[a] != queue@[b] by {
                    assert(queue@[a] == q0[a]);
                    if b < q0.len() {
                        assert(queue@[b] == q0[b]);
                    }
                }
                assert forall|x: int| 0 <= x < v0 + 1 implies (#[trigger] indeg@[x] == 0 <==> listed(queue@, x)) by {
                    if x == v0 as int {
                        assert(queue@[q0.len() as int] as int == x);
                    } else if listed(queue@, x) {
                        let i = choose|i: int| 0 <= i < queue@.len() && queue@[i] as int == x;
                        if i < q0.len() {
                            assert(queue@[i] == q0[i]);
                        }
                    } else if indeg@[x] == 0 {
                        let i = choose|i: int| 0 <= i < q0.len() && q0[i] as int == x;
                        assert(queue@[i] == q0[i]);
                    }
                }
            }
        }
        v0 = v0 + 1;
    }
    let mut head: usize = 0;
    let ghost mut done: Set<int> = Set::empty();
    proof {
        if every_node_entered(n as int, e) {
            if queue@.len() > 0 {
                let x = queue@[0] as int;
                assert(listed(queue@, x));
                assert(entered(e, x));
                assert(0 <= x < n);
                assert(indeg@[x] == 0);
                assert(indeg@[x] == waiting(e, x, none, -1, 0, e.len() as int));
                let kk = choose|k: int| 0 <= k < e.len() && (#[trigger] e[k]).1 as int == x;
                lemma_waiting_zero(e, x, none, -1, 0, e.len() as int, kk);
            }
        }
        lemma_unique_bound(queue@, n as int);
        assert forall|s: Set<int>| #[trigger] core_set(n as int, e, s) implies forall|x: int| s.contains(x)
            ==> !listed(queue@, x) by {
            assert forall|x: int| s.contains(x) implies !listed(queue@, x) by {
                if listed(queue@, x) {
                    assert(0 <= x < n);
                    assert(indeg@[x] == 0);
                    let kk = choose|kk: int| 0 <= kk < e.len() && e[kk].1 == x && (e[kk].0 >= n || s.contains(e[kk].0 as int));
                    lemma_waiting_zero(e, x, none, -1, 0, e.len() as int, kk);
                }
            }
        }
    }
    while head < queue.len()
        invariant
            e == edges@,
            forall|i: int| 0 <= i < e.len() ==> #[trigger] e[i].1 < n,
            indeg@.len() == n,
            head <= queue@.len() <= n,
            queue@.no_duplicates(),
            forall|i: int| 0 <= i < queue@.len() ==> #[trigger] queue@[i] < n,
            forall|x: int| #[trigger] done.contains(x) <==> exists|i: int| 0 <= i < head && queue@[i] as int == x,
            forall|v: int| 0 <= v < n ==> #[trigger] indeg@[v] == waiting(e, v, done, -1, 0, e.len() as int),
            forall|x: int| 0 <= x < n ==> (#[trigger] indeg@[x] == 0 <==> listed(queue@, x)),
            forall|s: Set<int>| #[trigger] core_set(n as int, e, s) ==> forall|x: int| s.contains(x)
                ==> !listed(queue@, x),
            every_node_entered(n as int, e) ==> queue@.len() == 0,
        decreases n - head, n - queue@.len(),
    {
        if let Err(_) = execution.checkpoint() {
            return None;
        }
        let u = queue[head];
        proof {
            assert(!done.contains(u as int)) by {
                if done.contains(u as int) {
                    let i = choose|i: int| 0 <= i < head && queue@[i] as int == u as int;
                    assert(queue@[i] == queue@[head as int]);
                }
            }
        }
        proof {
            assert forall|v: int| 0 <= v < n implies #[trigger] indeg@[v] == waiting(e, v, done, u as int, 0, e.len() as int) by {
                lemma_waiting_unscanned(e, v, done, u as int, e.len() as int);
            }
        }
        let mut j: usize = 0;
        while j < edges.len()
            invariant
                e == edges@,
                forall|i: int| 0 <= i < e.len() ==> #[trigger] e[i].1 < n,
                j <= e.len(),
                indeg@.len() == n,
                head < queue@.len() <= n,
                queue@[head as int] == u,
                u < n,
                !done.contains(u as int),
                queue@.no_duplicates(),
                forall|i: int| 0 <= i < queue@.len() ==> #[trigger] queue@[i] < n,
                forall|x: int| #[trigger] done.contains(x) <==> exists|i: int| 0 <= i < head && queue@[i] as int == x,
                forall|v: int| 0 <= v < n ==> #[trigger] indeg@[v] == waiting(e, v, done, u as int, j as int, e.len() as int),
                forall|x: int| 0 <= x < n ==> (#[trigger] indeg@[x] == 0 <==> listed(queue@, x)),
                forall|s: Set<int>| #[trigger] core_set(n as int, e, s) ==> forall|x: int| s.contains(x)
                    ==> !listed(queue@, x),
                every_node_entered(n as int, e) ==> queue@.len() == 0,
            decreases e.len() - j,
        {
            if let Err(_) = execution.checkpoint() {
                return None;
            }
            let (from, to) = edges[j];
            proof {
                assert forall|v: int| 0 <= v < n implies #[trigger] waiting(e, v, done, u as int, j + 1, e.len() as int)
                    + (if j < e.len() && e[j as int].0 == u && e[j as int].1 == v && !done.contains(u as int) { 1int } else { 0int })
                    == waiting(e, v, done, u as int, j as int, e.len() as int) by {
                    lemma_waiting_step(e, v, done, u as int, j as int, e.len() as int);
                }
            }
            if from == u {
                let d = indeg[to];
                proof {
                    assert(waiting(e, to as int, done, u as int, j + 1, e.len() as int) + 1 == waiting(e, to as int, done, u as int, j as int, e.len() as int));
                }
                indeg.set(to, d - 1);
                if d - 1 == 0 {
                    let ghost q0 = queue@;
                    proof {
                        assert(!listed(q0, to as int)) by {
                            assert(d != 0);
                        }
                    }
                    queue.push(to);
                    proof {
                        assert forall|a: int, b: int| 0 <= a < b < queue@.len() implies queue@[a] != queue@[b] by {
                            assert(queue@[a] == q0[a]);
                            if b < q0.len() {
                                assert(queue@[b] == q0[b]);
                            }
                        }
                        assert forall|i: int| 0 <= i < queue@.len() implies #[trigger] queue@[i] < n by {
                            if i < q0.len() {
                                assert(queue@[i] == q0[i]);
                            }
                        }
                        lemma_unique_bound(queue@, n as int);
                        assert forall|x: int| #[trigger] done.contains(x) <==> exists|i: int| 0 <= i < head && queue@[i] as int == x by {
                            if done.contains(x) {
                                let i = choose|i: int| 0 <= i < head && q0[i] as int == x;
                                assert(queue@[i] == q0[i]);
                            }
                            if exists|i: int| 0 <= i < head && queue@[i] as int == x {
                                let i = choose|i: int| 0 <= i < head && queue@[i] as int == x;
                                assert(queue@[i] == q0[i]);
                            }
                        }
                        assert forall|x: int| 0 <= x < n implies (#[trigger] indeg@[x] == 0 <==> listed(queue@, x)) by {
                            if x == to as int {
                                assert(queue@[q0.len() as int] as int == x);
                            } else {
                                if listed(queue@, x) {
                                    let i = choose|i: int| 0 <= i < queue@.len() && queue@[i] as int == x;
                                    if i < q0.len() {
                                        assert(queue@[i] == q0[i]);
                                    }
                                }
                                if indeg@[x] == 0 {
                                    let i = choose|i: int| 0 <= i < q0.len() && q0[i] as int == x;
                                    assert(queue@[i] == q0[i]);
                                }
                            }
                        }
                        assert forall|s: Set<int>| #[trigger] core_set(n as int, e, s) implies forall|x: int| s.contains(x)
                            ==> !listed(queue@, x) by {
                            assert forall|x: int| s.contains(x) implies !listed(queue@, x) by {
                                if listed(queue@, x) {
                                    let i = choose|i: int| 0 <= i < queue@.len() && queue@[i] as int == x;
                                    if i < q0.len() {
                                        assert(queue@[i] == q0[i]);
                                        assert(listed(q0, x));
                                    } else {
                                        assert(x == to as int);
                                        let kk = choose|kk: int| 0 <= kk < e.len() && e[kk].1 == x && (e[kk].0 >= n || s.contains(e[kk].0 as int));
                                        lemma_waiting_zero(e, x, done, u as int, j + 1, e.len() as int, kk);
                                        if e[kk].0 < n {
                                            assert(s.contains(e[kk].0 as int));
                                            if done.contains(e[kk].0 as int) {
                                                let i3 = choose|i3: int| 0 <= i3 < head && queue@[i3] as int == e[kk].0 as int;
                                                assert(q0[i3] == queue@[i3]);
                                                assert(listed(q0, e[kk].0 as int));
                                            } else {
                                                assert(e[kk].0 == u && kk < j + 1);
                                                assert(listed(q0, u as int));
                                            }
                                        }
                                    }
                                }
                            }
                        }
                    }
                }
            }
            j = j + 1;
        }
        proof {
            assert forall|v: int| 0 <= v < n implies #[trigger] indeg@[v] == waiting(e, v, done.insert(u as int), -1, 0, e.len() as int) by {
                lemma_waiting_finish(e, v, done, u as int, e.len() as int);
            }
            done = done.insert(u as int);
            assert forall|x: int| #[trigger] done.contains(x) <==> exists|i: int| 0 <= i < head + 1 && queue@[i] as int == x by {
                if x == u as int {
                    assert(queue@[head as int] as int == x);
                }
            }
        }
        head = head + 1;
    }
    let visited = head;
    proof {
        if visited < n {
            let rest = Set::new(|x: int| 0 <= x < n && !listed(queue@, x));
            if !exists|x: int| rest.contains(x) {
                assert forall|v: int| 0 <= v < n implies listed(queue@, v) by {
                    assert(!rest.contains(v));
                }
                lemma_cover_bound(queue@, n as int);
            }
            assert forall|v: int| #[trigger] rest.contains(v) implies 0 <= v < n && exists|k: int|
                0 <= k < e.len() && e[k].1 == v && (e[k].0 >= n || rest.contains(e[k].0 as int)) by {
                assert(indeg@[v] != 0);
                let kk = lemma_waiting_positive(e, v, done, -1, 0, e.len() as int);
                assert(!done.contains(e[kk].0 as int));
                if e[kk].0 < n {
                    assert(!listed(queue@, e[kk].0 as int));
                    assert(rest.contains(e[kk].0 as int));
                }
            }
            assert(core_set(n as int, e, rest));
        } else {
            if cyclic(n as int, e) {
                let s = choose|s: Set<int>| #[trigger] core_set(n as int, e, s);
                let x = choose|x: int| s.contains(x);
                assert(0 <= x < n);
                assert(!done.contains(x));
                assert(!listed(queue@, x));
                assert(exists|i: int| 0 <= i < head && queue@[i] as int == x) by {
                    lemma_full_cover(queue@, n as int, x);
                }
            }
        }
    }
    Some(visited < n)
}

} // verus!
