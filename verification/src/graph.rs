use vstd::prelude::*;
use crate::sort::{lemma_increasing_unique, strictly_increasing};

verus! {

/// Node `b` is listed as a neighbor of node `a`.
pub open spec fn listed(adj: Seq<Seq<usize>>, a: usize, b: usize) -> bool {
    a < adj.len() && adj[a as int].contains(b)
}

/// A walk along the relation `rel`.
pub open spec fn is_path(rel: spec_fn(usize, usize) -> bool, p: Seq<usize>) -> bool {
    &&& p.len() > 0
    &&& forall|i: int| 0 <= i < p.len() - 1 ==> #[trigger] rel(p[i], p[i + 1])
}

/// Some walk along `rel` leads from `s` to `t`.
pub open spec fn reachable(rel: spec_fn(usize, usize) -> bool, s: usize, t: usize) -> bool {
    exists|p: Seq<usize>| #[trigger] is_path(rel, p) && p[0] == s && p.last() == t
}

/// `rel` is a symmetric relation on the nodes `0..n`.
pub open spec fn undirected(n: nat, rel: spec_fn(usize, usize) -> bool) -> bool {
    forall|a: usize, b: usize| #[trigger] rel(a, b) ==> rel(b, a) && a < n && b < n
}

/// The adjacency lists list exactly the pairs of `rel`.
pub open spec fn lists_relation(adj: Seq<Seq<usize>>, rel: spec_fn(usize, usize) -> bool) -> bool {
    forall|a: usize, b: usize| #[trigger] listed(adj, a, b) <==> rel(a, b)
}

/// Some component lists `v`.
pub open spec fn in_some(comps: Seq<Seq<usize>>, v: usize) -> bool {
    exists|c: int| 0 <= c < comps.len() && #[trigger] comps[c].contains(v)
}

/// The components of an undirected graph: each lists, without repetition,
/// exactly the nodes reachable from its first node; every node lies in one;
/// each component's first node is its smallest, and components are ordered
/// by first node.
pub open spec fn are_components(n: nat, rel: spec_fn(usize, usize) -> bool, comps: Seq<Seq<usize>>) -> bool {
    &&& forall|c: int| 0 <= c < comps.len() ==> (#[trigger] comps[c]).len() > 0 && comps[c].no_duplicates()
    &&& forall|c: int, v: usize|
        0 <= c < comps.len() && v < n ==> (#[trigger] comps[c].contains(v) <==> reachable(rel, comps[c][0], v))
    &&& forall|c: int, k: int| 0 <= c < comps.len() && 0 <= k < comps[c].len() ==> (#[trigger] comps[c][k]) < n
    &&& forall|c: int, k: int| 0 <= c < comps.len() && 0 <= k < comps[c].len() ==> comps[c][0] <= #[trigger] comps[c][k]
    &&& forall|c: int, d: int| 0 <= c < d < comps.len() ==> (#[trigger] comps[c])[0] < (#[trigger] comps[d])[0]
    &&& forall|v: usize| v < n ==> #[trigger] in_some(comps, v)
}

pub open spec fn lists_view(v: Seq<Vec<usize>>) -> Seq<Seq<usize>> {
    v.map_values(|l: Vec<usize>| l@)
}

pub proof fn lemma_reach_self(rel: spec_fn(usize, usize) -> bool, s: usize)
    ensures
        reachable(rel, s, s),
{
    let p = seq![s];
    assert(is_path(rel, p));
}

pub proof fn lemma_reach_step(rel: spec_fn(usize, usize) -> bool, s: usize, u: usize, w: usize)
    requires
        reachable(rel, s, u),
        rel(u, w),
    ensures
        reachable(rel, s, w),
{
    let p = choose|p: Seq<usize>| #[trigger] is_path(rel, p) && p[0] == s && p.last() == u;
    let q = p.push(w);
    assert forall|i: int| 0 <= i < q.len() - 1 implies #[trigger] rel(q[i], q[i + 1]) by {
        if i < p.len() - 1 {
            assert(q[i] == p[i] && q[i + 1] == p[i + 1]);
        }
    }
    assert(is_path(rel, q));
}

/// A node set closed under adjacency holds everything reachable from its members.
pub proof fn lemma_closed_reach(rel: spec_fn(usize, usize) -> bool, members: Seq<usize>, s: usize, t: usize)
    requires
        members.contains(s),
        forall|u: usize, w: usize| #[trigger] members.contains(u) && #[trigger] rel(u, w) ==> members.contains(w),
        reachable(rel, s, t),
    ensures
        members.contains(t),
{
    let p = choose|p: Seq<usize>| #[trigger] is_path(rel, p) && p[0] == s && p.last() == t;
    lemma_closed_path(rel, members, p, p.len() - 1);
}

proof fn lemma_closed_path(rel: spec_fn(usize, usize) -> bool, members: Seq<usize>, p: Seq<usize>, i: int)
    requires
        is_path(rel, p),
        0 <= i < p.len(),
        members.contains(p[0]),
        forall|u: usize, w: usize| #[trigger] members.contains(u) && #[trigger] rel(u, w) ==> members.contains(w),
    ensures
        members.contains(p[i]),
    decreases i,
{
    if i > 0 {
        lemma_closed_path(rel, members, p, i - 1);
        assert(rel(p[i - 1], p[i - 1 + 1]));
    }
}

pub proof fn lemma_no_dup_len_bound(s: Seq<usize>, n: int)
    requires
        s.no_duplicates(),
        0 <= n,
        forall|k: int| 0 <= k < s.len() ==> (#[trigger] s[k]) < n,
    ensures
        s.len() <= n,
{
    let t = s.map_values(|v: usize| v as int);
    assert(t.no_duplicates()) by {
        assert forall|a: int, b: int| 0 <= a < b < t.len() implies t[a] != t[b] by {
            assert(s[a] != s[b]);
        }
    }
    t.unique_seq_to_set();
    vstd::set_lib::lemma_int_range(0, n);
    assert(t.to_set().subset_of(vstd::set_lib::set_int_range(0, n))) by {
        assert forall|x: int| t.to_set().contains(x) implies vstd::set_lib::set_int_range(0, n).contains(x) by {
            let k = choose|k: int| 0 <= k < t.len() && t[k] == x;
            assert(s[k] < n);
        }
    }
    vstd::set_lib::lemma_len_subset(t.to_set(), vstd::set_lib::set_int_range(0, n));
}

/// A search in progress: which nodes were reached, and the nodes of the
/// current component in the order they were reached.
pub type Search = (Seq<bool>, Seq<usize>);

/// Reaching node `w`: a node not reached yet is marked and queued.
pub open spec fn reach_node(st: Search, w: usize) -> Search {
    if st.0[w as int] {
        st
    } else {
        (st.0.update(w as int, true), st.1.push(w))
    }
}

/// Reaching the nodes `nbrs[k..]` in list order.
pub open spec fn reach_all(st: Search, nbrs: Seq<usize>, k: int) -> Search
    decreases nbrs.len() - k,
{
    if 0 <= k < nbrs.len() {
        reach_all(reach_node(st, nbrs[k]), nbrs, k + 1)
    } else {
        st
    }
}

/// Taking the queued nodes from position `h` on, each reaching its listed
/// neighbors in turn, until the queue is exhausted.
pub open spec fn search_from(adj: Seq<Seq<usize>>, st: Search, h: int) -> Search
    decreases adj.len() - h,
{
    if 0 <= h < st.1.len() && h < adj.len() {
        search_from(adj, reach_all(st, adj[st.1[h] as int], 0), h + 1)
    } else {
        st
    }
}

/// The components found from node `s` on, given the nodes reached so far and
/// the components already found: each node not reached yet starts a new
/// component, searched breadth first.
pub open spec fn components_from(adj: Seq<Seq<usize>>, reached: Seq<bool>, found: Seq<Seq<usize>>, s: int) -> Seq<Seq<usize>>
    decreases adj.len() - s,
{
    if 0 <= s < adj.len() {
        if reached[s] {
            components_from(adj, reached, found, s + 1)
        } else {
            let r = search_from(adj, (reached.update(s, true), seq![s as usize]), 0);
            components_from(adj, r.0, found.push(r.1), s + 1)
        }
    } else {
        found
    }
}

/// The components of the graph with adjacency lists `adj`, in order of their
/// smallest node, each in breadth-first order from it over the lists.
pub open spec fn bfs_components(adj: Seq<Seq<usize>>) -> Seq<Seq<usize>> {
    components_from(adj, Seq::new(adj.len(), |i: int| false), Seq::empty(), 0)
}

/// Visits, breadth first, the unvisited nodes reachable from `s` and returns
/// them in visiting order.
fn explore(
    adj: &Vec<Vec<usize>>,
    visited: &mut Vec<bool>,
    s: usize,
    Ghost(g): Ghost<Seq<Seq<usize>>>,
    Ghost(rel): Ghost<spec_fn(usize, usize) -> bool>,
    Ghost(prev): Ghost<Seq<Seq<usize>>>,
) -> (comp: Vec<usize>)
    requires
        g == lists_view(adj@),
        undirected(g.len() as nat, rel),
        lists_relation(g, rel),
        old(visited)@.len() == g.len(),
        s < g.len(),
        !old(visited)@[s as int],
        forall|v: usize| #![trigger old(visited)@[v as int]] #![trigger in_some(prev, v)] v < g.len() ==> (old(visited)@[v as int] <==> in_some(prev, v)),
        forall|c: int, u: usize, w: usize|
            0 <= c < prev.len() && #[trigger] prev[c].contains(u) && #[trigger] rel(u, w) ==> prev[c].contains(w),
    ensures
        final(visited)@.len() == g.len(),
        comp@.len() > 0,
        comp@[0] == s,
        comp@.no_duplicates(),
        forall|k: int| 0 <= k < comp@.len() ==> (#[trigger] comp@[k]) < g.len(),
        forall|v: usize| #![trigger final(visited)@[v as int]] #![trigger comp@.contains(v)] v < g.len() ==> (final(visited)@[v as int] <==> old(visited)@[v as int] || comp@.contains(v)),
        forall|k: int| 0 <= k < comp@.len() ==> !old(visited)@[#[trigger] comp@[k] as int],
        forall|v: usize| v < g.len() ==> (#[trigger] comp@.contains(v) <==> reachable(rel, s, v)),
        forall|u: usize, w: usize| #[trigger] comp@.contains(u) && #[trigger] rel(u, w) ==> comp@.contains(w),
        (final(visited)@, comp@) == search_from(g, (old(visited)@.update(s as int, true), seq![s]), 0),
{
    let n = adj.len();
    let ghost old_visited = visited@;
    let mut comp: Vec<usize> = Vec::new();
    comp.push(s);
    visited.set(s, true);
    proof {
        assert(comp@ =~= seq![s]);
        lemma_reach_self(rel, s);
        assert(comp@[0] == s);
        assert forall|v: usize| #![trigger visited@[v as int]] #![trigger comp@.contains(v)] v < n implies (visited@[v as int] <==> old_visited[v as int] || comp@.contains(v)) by {
            if comp@.contains(v) {
                assert(comp@[0] == v);
            }
            if v == s {
                assert(comp@[0] == v);
            }
        }
    }
    let mut h: usize = 0;
    while h < comp.len()
        invariant
            g == lists_view(adj@),
            n == g.len(),
            undirected(g.len() as nat, rel),
        lists_relation(g, rel),
            visited@.len() == n,
            old_visited.len() == n,
            s < n,
            0 <= h <= comp@.len(),
            comp@.len() > 0,
            comp@[0] == s,
            comp@.no_duplicates(),
            forall|k: int| 0 <= k < comp@.len() ==> (#[trigger] comp@[k]) < n,
            forall|v: usize| #![trigger visited@[v as int]] #![trigger comp@.contains(v)] v < n ==> (visited@[v as int] <==> old_visited[v as int] || comp@.contains(v)),
            forall|k: int| 0 <= k < comp@.len() ==> !old_visited[#[trigger] comp@[k] as int],
            forall|k: int| 0 <= k < comp@.len() ==> reachable(rel, s, #[trigger] comp@[k]),
            forall|q: int, w: usize| 0 <= q < h && #[trigger] rel(comp@[q], w) ==> visited@[w as int],
            search_from(g, (visited@, comp@), h as int) == search_from(g, (old_visited.update(s as int, true), seq![s]), 0),
        decreases n - h,
    {
        let u = comp[h];
        let nbrs = &adj[u];
        proof {
            assert(nbrs@ == g[u as int]);
            lemma_no_dup_len_bound(comp@, n as int);
        }
        let ghost target = search_from(g, (old_visited.update(s as int, true), seq![s]), 0);
        let mut k: usize = 0;
        while k < nbrs.len()
            invariant
                g == lists_view(adj@),
                n == g.len(),
                undirected(g.len() as nat, rel),
        lists_relation(g, rel),
                nbrs@ == g[u as int],
                u < n,
                u == comp@[h as int],
                visited@.len() == n,
                old_visited.len() == n,
                s < n,
                0 <= h < comp@.len(),
                0 <= k <= nbrs@.len(),
                comp@[0] == s,
                comp@.no_duplicates(),
                forall|j: int| 0 <= j < comp@.len() ==> (#[trigger] comp@[j]) < n,
                forall|v: usize| #![trigger visited@[v as int]] #![trigger comp@.contains(v)] v < n ==> (visited@[v as int] <==> old_visited[v as int] || comp@.contains(v)),
                forall|j: int| 0 <= j < comp@.len() ==> !old_visited[#[trigger] comp@[j] as int],
                forall|j: int| 0 <= j < comp@.len() ==> reachable(rel, s, #[trigger] comp@[j]),
                forall|q: int, w: usize| 0 <= q < h && #[trigger] rel(comp@[q], w) ==> visited@[w as int],
                forall|j: int| 0 <= j < k ==> visited@[#[trigger] nbrs@[j] as int],
                search_from(g, reach_all((visited@, comp@), nbrs@, k as int), h + 1) == target,
            decreases nbrs@.len() - k,
        {
            let w = nbrs[k];
            let ghost st0: Search = (visited@, comp@);
            proof {
                assert(g[u as int][k as int] == w);
                assert(g[u as int].contains(w));
                assert(listed(g, u, w));
                assert(w < n);
            }
            if !visited[w] {
                let ghost before = comp@;
                visited.set(w, true);
                comp.push(w);
                proof {
                    assert(listed(g, u, w));
                    assert(rel(u, w));
                    lemma_reach_step(rel, s, u, w);
                    assert(!before.contains(w));
                    assert forall|v: usize| #![trigger visited@[v as int]] #![trigger comp@.contains(v)] v < n implies (visited@[v as int] <==> old_visited[v as int] || comp@.contains(v)) by {
                        if comp@.contains(v) && v != w {
                            let j = choose|j: int| 0 <= j < comp@.len() && comp@[j] == v;
                            assert(before[j] == v);
                        }
                        if v == w {
                            assert(comp@[comp@.len() - 1] == v);
                        }
                        if before.contains(v) {
                            let j = choose|j: int| 0 <= j < before.len() && before[j] == v;
                            assert(comp@[j] == v);
                        }
                    }
                    assert(comp@.no_duplicates()) by {
                        assert forall|a: int, b: int| 0 <= a < b < comp@.len() implies comp@[a] != comp@[b] by {
                            if b == comp@.len() - 1 {
                                assert(before.contains(before[a]));
                            }
                        }
                    }
                    assert forall|j: int| 0 <= j < comp@.len() implies reachable(rel, s, #[trigger] comp@[j]) by {
                        if j < before.len() {
                            assert(comp@[j] == before[j]);
                        }
                    }
                    assert forall|j: int| 0 <= j < comp@.len() implies !old_visited[#[trigger] comp@[j] as int] by {
                        if j < before.len() {
                            assert(comp@[j] == before[j]);
                        }
                    }
                    assert forall|q: int, ww: usize| 0 <= q < h && #[trigger] rel(comp@[q], ww) implies visited@[ww as int] by {
                        assert(comp@[q] == before[q]);
                    }
                }
            }
            proof {
                assert((visited@, comp@) == reach_node(st0, w)) by {
                    if !st0.0[w as int] {
                        assert(visited@ =~= reach_node(st0, w).0);
                        assert(comp@ =~= reach_node(st0, w).1);
                    }
                }
                assert(visited@[w as int]);
                assert(nbrs@[k as int] == w);
                assert forall|j: int| 0 <= j < k + 1 implies visited@[#[trigger] nbrs@[j] as int] by {
                    if j < k {
                        assert(nbrs@[j] < n) by {
                            assert(g[u as int].contains(nbrs@[j]));
                            assert(listed(g, u, nbrs@[j]));
                        }
                    }
                }
            }
            k = k + 1;
        }
        proof {
            assert forall|q: int, w: usize| 0 <= q < h + 1 && #[trigger] rel(comp@[q], w) implies visited@[w as int] by {
                if q == h {
                    assert(listed(g, u, w));
                    let j = choose|j: int| 0 <= j < nbrs@.len() && nbrs@[j] == w;
                    assert(visited@[nbrs@[j] as int]);
                }
            }
        }
        h = h + 1;
    }
    proof {
        assert forall|uu: usize, w: usize| #[trigger] comp@.contains(uu) && #[trigger] rel(uu, w)
            implies comp@.contains(w) by {
            let q = choose|q: int| 0 <= q < comp@.len() && comp@[q] == uu;
            assert(rel(comp@[q], w));
            assert(w < n);
            assert(visited@[w as int]);
            if !comp@.contains(w) {
                assert(old_visited[w as int]);
                assert(in_some(prev, w));
                let c = choose|c: int| 0 <= c < prev.len() && #[trigger] prev[c].contains(w);
                assert(rel(w, uu));
                assert(prev[c].contains(uu));
                assert(in_some(prev, uu));
                assert(old_visited[uu as int]);
                assert(!old_visited[comp@[q] as int]);
            }
        }
        assert forall|v: usize| v < n implies (#[trigger] comp@.contains(v) <==> reachable(rel, s, v)) by {
            if comp@.contains(v) {
                let q = choose|q: int| 0 <= q < comp@.len() && comp@[q] == v;
                assert(reachable(rel, s, comp@[q]));
            }
            if reachable(rel, s, v) {
                assert(comp@.contains(s)) by {
                    assert(comp@[0] == s);
                }
                lemma_closed_reach(rel, comp@, s, v);
            }
        }
    }
    comp
}

/// Splits an undirected graph into its connected components, each listed in
/// breadth-first order from its smallest node.
pub fn components(adj: &Vec<Vec<usize>>, Ghost(rel): Ghost<spec_fn(usize, usize) -> bool>) -> (comps: Vec<Vec<usize>>)
    requires
        undirected(adj@.len() as nat, rel),
        lists_relation(lists_view(adj@), rel),
    ensures
        are_components(adj@.len() as nat, rel, lists_view(comps@)),
        lists_view(comps@) == bfs_components(lists_view(adj@)),
{
    let ghost g = lists_view(adj@);
    let n = adj.len();
    let mut visited: Vec<bool> = Vec::new();
    let mut i: usize = 0;
    while i < n
        invariant
            0 <= i <= n,
            visited@.len() == i,
            forall|v: int| 0 <= v < i ==> !visited@[v],
        decreases n - i,
    {
        visited.push(false);
        i = i + 1;
    }
    let mut comps: Vec<Vec<usize>> = Vec::new();
    let mut s: usize = 0;
    proof {
        assert(visited@ =~= Seq::new(n as nat, |i: int| false));
        assert(lists_view(comps@) =~= Seq::<Seq<usize>>::empty());
    }
    while s < n
        invariant
            components_from(g, visited@, lists_view(comps@), s as int) == bfs_components(g),
            g == lists_view(adj@),
            n == g.len(),
            undirected(g.len() as nat, rel),
        lists_relation(g, rel),
            visited@.len() == n,
            0 <= s <= n,
            forall|v: usize| v < s ==> visited@[v as int],
            forall|v: usize| #![trigger visited@[v as int]] #![trigger in_some(lists_view(comps@), v)] v < n ==> (visited@[v as int] <==> in_some(lists_view(comps@), v)),
            forall|c: int| 0 <= c < comps@.len() ==> (#[trigger] lists_view(comps@)[c]).len() > 0 && lists_view(comps@)[c].no_duplicates(),
            forall|c: int, k: int| 0 <= c < comps@.len() && 0 <= k < lists_view(comps@)[c].len() ==> (#[trigger] lists_view(comps@)[c][k]) < n,
            forall|c: int, k: int| 0 <= c < comps@.len() && 0 <= k < lists_view(comps@)[c].len() ==> lists_view(comps@)[c][0] <= #[trigger] lists_view(comps@)[c][k],
            forall|c: int, d: int| 0 <= c < d < comps@.len() ==> (#[trigger] lists_view(comps@)[c])[0] < (#[trigger] lists_view(comps@)[d])[0],
            forall|c: int| 0 <= c < comps@.len() ==> (#[trigger] lists_view(comps@)[c])[0] < s,
            forall|c: int, v: usize|
                0 <= c < comps@.len() && v < n ==> (#[trigger] lists_view(comps@)[c].contains(v) <==> reachable(rel, lists_view(comps@)[c][0], v)),
            forall|c: int, u: usize, w: usize|
                0 <= c < comps@.len() && #[trigger] lists_view(comps@)[c].contains(u) && #[trigger] rel(u, w)
                    ==> lists_view(comps@)[c].contains(w),
        decreases n - s,
    {
        if !visited[s] {
            let ghost prev = lists_view(comps@);
            let ghost vis0 = visited@;
            let comp = explore(adj, &mut visited, s, Ghost(g), Ghost(rel), Ghost(prev));
            comps.push(comp);
            proof {
                let cv = lists_view(comps@);
                assert(cv =~= prev.push(comp@));
                assert(components_from(g, visited@, cv, s + 1) == bfs_components(g));
                let last = cv.len() - 1;
                assert(cv[last] == comp@);
                assert forall|v: usize| #![trigger visited@[v as int]] #![trigger in_some(cv, v)] v < n implies (visited@[v as int] <==> in_some(cv, v)) by {
                    if in_some(cv, v) {
                        let c = choose|c: int| 0 <= c < cv.len() && #[trigger] cv[c].contains(v);
                        if c < last {
                            assert(prev[c] == cv[c]);
                            assert(in_some(prev, v));
                        }
                    }
                    if visited@[v as int] {
                        if comp@.contains(v) {
                            assert(cv[last].contains(v));
                        } else {
                            assert(in_some(prev, v));
                            let c = choose|c: int| 0 <= c < prev.len() && #[trigger] prev[c].contains(v);
                            assert(cv[c] == prev[c]);
                        }
                    }
                }
                assert forall|c: int, k: int| 0 <= c < cv.len() && 0 <= k < cv[c].len() implies cv[c][0] <= #[trigger] cv[c][k] by {
                    if c == last {
                        let x = comp@[k];
                        assert(!vis0[x as int]);
                        if x < s {
                            assert(vis0[x as int]);
                        }
                    } else {
                        assert(cv[c] == prev[c]);
                    }
                }
            }
        }
        s = s + 1;
    }
    proof {
        let cv = lists_view(comps@);
        assert forall|v: usize| v < n implies #[trigger] in_some(cv, v) by {
            assert(visited@[v as int]);
        }
    }
    comps
}

/// In an undirected graph a walk can be taken backwards.
pub proof fn lemma_reach_symmetric(n: nat, rel: spec_fn(usize, usize) -> bool, s: usize, t: usize)
    requires
        undirected(n, rel),
        reachable(rel, s, t),
    ensures
        reachable(rel, t, s),
{
    let p = choose|p: Seq<usize>| #[trigger] is_path(rel, p) && p[0] == s && p.last() == t;
    let q = p.reverse();
    assert forall|i: int| 0 <= i < q.len() - 1 implies #[trigger] rel(q[i], q[i + 1]) by {
        let j = p.len() - 2 - i;
        assert(rel(p[j], p[j + 1]));
        assert(q[i] == p[j + 1] && q[i + 1] == p[j]);
    }
    assert(is_path(rel, q));
    assert(q[0] == t && q.last() == s);
}

/// The first nodes of the components are exactly the nodes that come before
/// every node they reach.
proof fn lemma_component_heads(n: nat, rel: spec_fn(usize, usize) -> bool, comps: Seq<Seq<usize>>, x: usize)
    requires
        undirected(n, rel),
        are_components(n, rel, comps),
    ensures
        (exists|c: int| 0 <= c < comps.len() && #[trigger] comps[c][0] == x) <==> (x < n && forall|u: usize|
            u < n && #[trigger] reachable(rel, x, u) ==> x <= u),
{
    if exists|c: int| 0 <= c < comps.len() && #[trigger] comps[c][0] == x {
        let c = choose|c: int| 0 <= c < comps.len() && #[trigger] comps[c][0] == x;
        assert(comps[c][0] < n);
        assert forall|u: usize| u < n && #[trigger] reachable(rel, x, u) implies x <= u by {
            assert(comps[c].contains(u));
            let k = choose|k: int| 0 <= k < comps[c].len() && comps[c][k] == u;
            assert(comps[c][0] <= comps[c][k]);
        }
    }
    if x < n && forall|u: usize| u < n && #[trigger] reachable(rel, x, u) ==> x <= u {
        assert(in_some(comps, x));
        let c = choose|c: int| 0 <= c < comps.len() && #[trigger] comps[c].contains(x);
        let h = comps[c][0];
        assert(h < n);
        assert(reachable(rel, h, x));
        lemma_reach_symmetric(n, rel, h, x);
        assert(x <= h);
        let k = choose|k: int| 0 <= k < comps[c].len() && comps[c][k] == x;
        assert(h <= comps[c][k]);
        assert(comps[c][0] == x);
    }
}

spec fn heads(comps: Seq<Seq<usize>>) -> Seq<u64> {
    comps.map_values(|c: Seq<usize>| c[0] as u64)
}

/// The components of a graph are unique: any two listings of them have the
/// same components, in the same order, with the same nodes (only the order
/// within a component may differ).
pub proof fn law_components_unique(n: nat, rel: spec_fn(usize, usize) -> bool, a: Seq<Seq<usize>>, b: Seq<Seq<usize>>)
    requires
        undirected(n, rel),
        are_components(n, rel, a),
        are_components(n, rel, b),
    ensures
        a.len() == b.len(),
        forall|c: int| 0 <= c < a.len() ==> (#[trigger] a[c])[0] == b[c][0] && a[c].to_set() == b[c].to_set(),
{
    let ha = heads(a);
    let hb = heads(b);
    assert(strictly_increasing(ha)) by {
        assert forall|i: int, j: int| 0 <= i < j < ha.len() implies ha[i] < ha[j] by {
            assert(a[i][0] < a[j][0]);
        }
    }
    assert(strictly_increasing(hb)) by {
        assert forall|i: int, j: int| 0 <= i < j < hb.len() implies hb[i] < hb[j] by {
            assert(b[i][0] < b[j][0]);
        }
    }
    assert(ha.to_set() =~= hb.to_set()) by {
        assert forall|y: u64| ha.to_set().contains(y) implies hb.to_set().contains(y) by {
            let i = choose|i: int| 0 <= i < ha.len() && ha[i] == y;
            let x = a[i][0];
            lemma_component_heads(n, rel, a, x);
            lemma_component_heads(n, rel, b, x);
            let c = choose|c: int| 0 <= c < b.len() && #[trigger] b[c][0] == x;
            assert(hb[c] == y);
        }
        assert forall|y: u64| hb.to_set().contains(y) implies ha.to_set().contains(y) by {
            let i = choose|i: int| 0 <= i < hb.len() && hb[i] == y;
            let x = b[i][0];
            lemma_component_heads(n, rel, b, x);
            lemma_component_heads(n, rel, a, x);
            let c = choose|c: int| 0 <= c < a.len() && #[trigger] a[c][0] == x;
            assert(ha[c] == y);
        }
    }
    lemma_increasing_unique(ha, hb);
    assert forall|c: int| 0 <= c < a.len() implies (#[trigger] a[c])[0] == b[c][0] && a[c].to_set() == b[c].to_set() by {
        assert(ha[c] == hb[c]);
        assert(a[c][0] == b[c][0]);
        assert(a[c].to_set() =~= b[c].to_set()) by {
            assert forall|v: usize| a[c].to_set().contains(v) <==> b[c].to_set().contains(v) by {
                if a[c].contains(v) {
                    let k = choose|k: int| 0 <= k < a[c].len() && a[c][k] == v;
                    assert(a[c][k] < n);
                }
                if b[c].contains(v) {
                    let k = choose|k: int| 0 <= k < b[c].len() && b[c][k] == v;
                    assert(b[c][k] < n);
                }
            }
        }
    }
}

} // verus!
