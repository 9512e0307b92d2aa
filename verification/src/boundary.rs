use vstd::prelude::*;
use crate::checks::{boundary_edges, collect_boundary_edges, count, BoundaryEdge};
use crate::graph::{are_components, bfs_components, components, listed, lists_relation, lists_view, undirected};
use crate::model::{findings_view, metric, Finding, FindingView, Metric, MetricValue, Severity, metrics_view};
use crate::sort::{ascending, lemma_ascending, sort_distinct, strictly_increasing};
use crate::text::{decimal, decimal_string};
use std::collections::{HashMap, HashSet};

verus! {

broadcast use vstd::std_specs::hash::group_hash_axioms;

/// Vertex `v` is an endpoint of the boundary edge.
pub open spec fn touches(e: BoundaryEdge, v: u32) -> bool {
    e.edge.0 == v || e.edge.1 == v
}

/// Two distinct boundary edges share an endpoint.
pub open spec fn edges_meet(es: Seq<BoundaryEdge>, a: usize, b: usize) -> bool {
    &&& a < es.len()
    &&& b < es.len()
    &&& a != b
    &&& (touches(es[b as int], es[a as int].edge.0) || touches(es[b as int], es[a as int].edge.1))
}

pub open spec fn meet_relation(es: Seq<BoundaryEdge>) -> spec_fn(usize, usize) -> bool {
    |a: usize, b: usize| edges_meet(es, a, b)
}

/// The edges listed for each vertex among the first `n` edges.
spec fn lists_by_vertex(byv: Map<u32, Vec<usize>>, es: Seq<BoundaryEdge>, n: int) -> bool {
    forall|v: u32, x: usize|
        #![trigger byv[v]@.contains(x)]
        #![trigger touches(es[x as int], v)]
        (byv.contains_key(v) && byv[v]@.contains(x)) <==> (x < n && touches(es[x as int], v))
}

spec fn listed_at(m: Map<u32, Vec<usize>>, w: u32, l: usize) -> bool {
    m.contains_key(w) && m[w]@.contains(l)
}

/// The list a map holds for vertex `v`, empty where it holds none.
spec fn list_for(m: Map<u32, Vec<usize>>, v: u32) -> Seq<usize> {
    if m.contains_key(v) {
        m[v]@
    } else {
        Seq::empty()
    }
}

/// The first `n` edges listed under vertex `v`: an edge once for each of its
/// endpoints that is `v`, in edge order.
pub open spec fn touching(es: Seq<BoundaryEdge>, v: u32, n: int) -> Seq<usize>
    decreases n,
{
    if n <= 0 {
        Seq::empty()
    } else {
        let r = touching(es, v, n - 1);
        let r1 = if es[n - 1].edge.0 == v { r.push((n - 1) as usize) } else { r };
        if es[n - 1].edge.1 == v { r1.push((n - 1) as usize) } else { r1 }
    }
}

/// The entries of `l` other than `e`, in order.
pub open spec fn without(l: Seq<usize>, e: usize) -> Seq<usize>
    decreases l.len(),
{
    if l.len() == 0 {
        Seq::empty()
    } else if l.last() == e {
        without(l.drop_last(), e)
    } else {
        without(l.drop_last(), e).push(l.last())
    }
}

/// The neighbor list of boundary edge `e`: the other edges listed under its
/// first endpoint, then those listed under its second.
pub open spec fn edge_list(es: Seq<BoundaryEdge>, e: usize) -> Seq<usize> {
    without(touching(es, es[e as int].edge.0, es.len() as int), e) + without(
        touching(es, es[e as int].edge.1, es.len() as int),
        e,
    )
}

/// The neighbor lists of all boundary edges.
pub open spec fn edge_lists(es: Seq<BoundaryEdge>) -> Seq<Seq<usize>> {
    Seq::new(es.len(), |e: int| edge_list(es, e as usize))
}

fn add_to(byv: &mut HashMap<u32, Vec<usize>>, v: u32, x: usize)
    ensures
        forall|w: u32, l: usize|
            #[trigger] listed_at(final(byv)@, w, l) <==> (listed_at(old(byv)@, w, l) || (w == v && l == x)),
        forall|w: u32| #[trigger] list_for(final(byv)@, w) == if w == v {
            list_for(old(byv)@, w).push(x)
        } else {
            list_for(old(byv)@, w)
        },
{
    let ghost b0 = byv@;
    match byv.remove(&v) {
        Some(mut l) => {
            let ghost l0 = l@;
            l.push(x);
            byv.insert(v, l);
            proof {
                assert forall|w: u32, y: usize|
                    #![trigger byv@[w]@.contains(y)]
                    (byv@.contains_key(w) && byv@[w]@.contains(y)) <==> ((b0.contains_key(w) && b0[w]@.contains(y)) || (w == v && y == x)) by {
                    if w == v {
                        assert(byv@[w]@ == l0.push(x));
                        if l0.contains(y) {
                            let q = choose|q: int| 0 <= q < l0.len() && l0[q] == y;
                            assert(byv@[w]@[q] == y);
                        }
                        if y == x {
                            assert(byv@[w]@[l0.len() as int] == y);
                        }
                        if byv@[w]@.contains(y) && y != x {
                            let q = choose|q: int| 0 <= q < byv@[w]@.len() && byv@[w]@[q] == y;
                            assert(l0[q] == y);
                        }
                    }
                }
                assert(l0 == list_for(b0, v));
            }
        },
        None => {
            let mut l: Vec<usize> = Vec::new();
            l.push(x);
            byv.insert(v, l);
            proof {
                assert forall|w: u32, y: usize|
                    #![trigger byv@[w]@.contains(y)]
                    (byv@.contains_key(w) && byv@[w]@.contains(y)) <==> ((b0.contains_key(w) && b0[w]@.contains(y)) || (w == v && y == x)) by {
                    if w == v {
                        assert(byv@[w]@ == seq![x]);
                        if y == x {
                            assert(byv@[w]@[0] == y);
                        }
                    }
                }
            }
        },
    }
}

fn edges_by_vertex(es: &Vec<BoundaryEdge>) -> (byv: HashMap<u32, Vec<usize>>)
    ensures
        lists_by_vertex(byv@, es@, es@.len() as int),
        forall|v: u32| #[trigger] list_for(byv@, v) == touching(es@, v, es@.len() as int),
{
    let mut byv: HashMap<u32, Vec<usize>> = HashMap::new();
    let mut i: usize = 0;
    while i < es.len()
        invariant
            0 <= i <= es@.len(),
            lists_by_vertex(byv@, es@, i as int),
            forall|v: u32| #[trigger] list_for(byv@, v) == touching(es@, v, i as int),
        decreases es@.len() - i,
    {
        let e = es[i];
        let ghost b0 = byv@;
        add_to(&mut byv, e.edge.0, i);
        let ghost b1 = byv@;
        add_to(&mut byv, e.edge.1, i);
        proof {
            assert forall|v: u32, x: usize|
                #![trigger byv@[v]@.contains(x)]
                #![trigger touches(es@[x as int], v)]
                (byv@.contains_key(v) && byv@[v]@.contains(x)) <==> (x < i + 1 && touches(es@[x as int], v)) by {
                assert(listed_at(byv@, v, x) <==> (listed_at(b1, v, x) || (v == e.edge.1 && x == i)));
                assert(listed_at(b1, v, x) <==> (listed_at(b0, v, x) || (v == e.edge.0 && x == i)));
                assert(listed_at(b0, v, x) <==> (x < i && touches(es@[x as int], v)));
            }
            assert forall|v: u32| #[trigger] list_for(byv@, v) == touching(es@, v, i + 1) by {
                assert(list_for(b1, v) == if v == e.edge.0 { list_for(b0, v).push(i) } else { list_for(b0, v) });
                assert(list_for(byv@, v) == if v == e.edge.1 { list_for(b1, v).push(i) } else { list_for(b1, v) });
                assert(list_for(b0, v) == touching(es@, v, i as int));
            }
        }
        i = i + 1;
    }
    byv
}

/// For each boundary edge, the other boundary edges that share an endpoint with it.
fn edge_adjacency(es: &Vec<BoundaryEdge>) -> (adj: Vec<Vec<usize>>)
    ensures
        adj@.len() == es@.len(),
        lists_relation(lists_view(adj@), meet_relation(es@)),
        lists_view(adj@) == edge_lists(es@),
{
    let byv = edges_by_vertex(es);
    let mut adj: Vec<Vec<usize>> = Vec::new();
    let mut e: usize = 0;
    while e < es.len()
        invariant
            lists_by_vertex(byv@, es@, es@.len() as int),
            0 <= e <= es@.len(),
            adj@.len() == e,
            forall|a: usize, b: usize| a < e ==> (#[trigger] lists_view(adj@)[a as int].contains(b) <==> edges_meet(es@, a, b)),
            forall|v: u32| #[trigger] list_for(byv@, v) == touching(es@, v, es@.len() as int),
            forall|a: int| 0 <= a < e ==> #[trigger] adj@[a]@ == edge_list(es@, a as usize),
        decreases es@.len() - e,
    {
        let ed = es[e];
        let mut l: Vec<usize> = Vec::new();
        let mut side: usize = 0;
        while side < 2
            invariant
                lists_by_vertex(byv@, es@, es@.len() as int),
                0 <= e < es@.len(),
                ed == es@[e as int],
                0 <= side <= 2,
                forall|b: usize| #[trigger] l@.contains(b) <==> (b != e && b < es@.len() && ((side >= 1 && touches(es@[b as int], ed.edge.0))
                    || (side == 2 && touches(es@[b as int], ed.edge.1)))),
                forall|v: u32| #[trigger] list_for(byv@, v) == touching(es@, v, es@.len() as int),
                side == 0 ==> l@ == Seq::<usize>::empty(),
                side == 1 ==> l@ == without(touching(es@, ed.edge.0, es@.len() as int), e),
                side == 2 ==> l@ == edge_list(es@, e),
            decreases 2 - side,
        {
            let v = if side == 0 { ed.edge.0 } else { ed.edge.1 };
            proof {
                assert(touches(es@[e as int], v));
            }
            let list = byv.get(&v).unwrap();
            let mut k: usize = 0;
            let ghost l0 = l@;
            proof {
                assert(list@ == list_for(byv@, v));
                assert(list@.take(0) =~= Seq::<usize>::empty());
                assert(l@ =~= l0 + without(list@.take(0), e));
            }
            while k < list.len()
                invariant
                    lists_by_vertex(byv@, es@, es@.len() as int),
                    byv@.contains_key(v),
                    list == byv@[v],
                    0 <= k <= list@.len(),
                    forall|b: usize| #[trigger] l@.contains(b) <==> (l0.contains(b) || exists|q: int| 0 <= q < k && list@[q] == b && b != e),
                    l@ == l0 + without(list@.take(k as int), e),
                decreases list@.len() - k,
            {
                let x = list[k];
                let ghost before = l@;
                if x != e {
                    l.push(x);
                }
                proof {
                    assert(list@.take(k + 1).drop_last() =~= list@.take(k as int));
                    assert(list@.take(k + 1).last() == x);
                    assert(l@ =~= l0 + without(list@.take(k + 1), e));
                }
                proof {
                    assert forall|b: usize| #[trigger] l@.contains(b) <==> (l0.contains(b) || exists|q: int| 0 <= q < k + 1 && list@[q] == b && b != e) by {
                        if l@.contains(b) && !before.contains(b) {
                            assert(list@[k as int] == b);
                        }
                        if before.contains(b) {
                            let z = choose|z: int| 0 <= z < before.len() && before[z] == b;
                            assert(l@[z] == b);
                        }
                        if exists|q: int| 0 <= q < k + 1 && list@[q] == b && b != e {
                            let q = choose|q: int| 0 <= q < k + 1 && list@[q] == b && b != e;
                            if q == k {
                                assert(l@[l@.len() - 1] == b);
                            }
                        }
                    }
                }
                k = k + 1;
            }
            proof {
                assert forall|b: usize| #[trigger] l@.contains(b) <==> (b != e && b < es@.len() && ((side + 1 >= 1 && touches(es@[b as int], ed.edge.0))
                    || (side + 1 == 2 && touches(es@[b as int], ed.edge.1)))) by {
                    if exists|q: int| 0 <= q < list@.len() && list@[q] == b && b != e {
                        let q = choose|q: int| 0 <= q < list@.len() && list@[q] == b && b != e;
                        assert(byv@[v]@.contains(b));
                    }
                    if b != e && b < es@.len() && touches(es@[b as int], v) {
                        assert(byv@[v]@.contains(b));
                        let q = choose|q: int| 0 <= q < list@.len() && list@[q] == b;
                    }
                }
            }
            proof {
                assert(list@.take(list@.len() as int) =~= list@);
                assert(l@ == l0 + without(touching(es@, v, es@.len() as int), e));
                if side == 0 {
                    assert(l@ =~= without(touching(es@, ed.edge.0, es@.len() as int), e));
                }
            }
            side = side + 1;
        }
        let ghost old_adj = adj@;
        adj.push(l);
        proof {
            assert forall|a: usize, b: usize| a < e + 1 implies (#[trigger] lists_view(adj@)[a as int].contains(b) <==> edges_meet(es@, a, b)) by {
                assert(lists_view(adj@)[a as int] == adj@[a as int]@);
                if a == e {
                    assert(adj@[a as int] == l);
                } else {
                    assert(adj@[a as int] == old_adj[a as int]);
                    assert(lists_view(old_adj)[a as int] == old_adj[a as int]@);
                }
            }
            assert forall|a: int| 0 <= a < e + 1 implies #[trigger] adj@[a]@ == edge_list(es@, a as usize) by {
                if a < e {
                    assert(adj@[a] == old_adj[a]);
                }
            }
        }
        e = e + 1;
    }
    proof {
        assert(lists_view(adj@) =~= edge_lists(es@));
        assert forall|a: usize, b: usize| #[trigger] listed(lists_view(adj@), a, b) <==> meet_relation(es@)(a, b) by {
            if a < e {
                assert(lists_view(adj@)[a as int].contains(b) <==> edges_meet(es@, a, b));
            }
        }
    }
    adj
}

/// Groups the boundary edges into connected components: edges that share an
/// endpoint belong together.
pub fn boundary_components(es: &Vec<BoundaryEdge>) -> (comps: Vec<Vec<usize>>)
    ensures
        are_components(es@.len() as nat, meet_relation(es@), lists_view(comps@)),
        lists_view(comps@) == bfs_components(edge_lists(es@)),
{
    let adj = edge_adjacency(es);
    proof {
        let rel = meet_relation(es@);
        assert forall|a: usize, b: usize| #[trigger] rel(a, b) implies rel(b, a) && a < adj@.len() && b < adj@.len() by {}
    }
    components(&adj, Ghost(meet_relation(es@)))
}

// ---------------------------------------------------------------------------
// Boundary-loop findings

/// How many endpoint slots of the listed edges hold vertex `v`.
pub open spec fn edge_degree(es: Seq<BoundaryEdge>, comp: Seq<usize>, v: u32) -> nat
    decreases comp.len(),
{
    if comp.len() == 0 {
        0
    } else {
        let e = es[comp.last() as int];
        edge_degree(es, comp.drop_last(), v) + (if e.edge.0 == v { 1nat } else { 0nat }) + (if e.edge.1 == v {
            1nat
        } else {
            0nat
        })
    }
}

/// The endpoints of the listed edges.
pub open spec fn loop_vertices(es: Seq<BoundaryEdge>, comp: Seq<usize>) -> Set<u32> {
    Set::new(|v: u32| exists|k: int| 0 <= k < comp.len() && #[trigger] touches(es[comp[k] as int], v))
}

/// Every endpoint of the listed edges has degree two: the edges close up.
pub open spec fn is_closed_loop(es: Seq<BoundaryEdge>, comp: Seq<usize>) -> bool {
    forall|k: int|
        0 <= k < comp.len() ==> edge_degree(es, comp, (#[trigger] es[comp[k] as int]).edge.0) == 2 && edge_degree(
            es,
            comp,
            es[comp[k] as int].edge.1,
        ) == 2
}

/// The faces that own the listed edges.
pub open spec fn loop_faces(es: Seq<BoundaryEdge>, comp: Seq<usize>) -> Set<u64> {
    Set::new(|f: u64| exists|k: int| 0 <= k < comp.len() && #[trigger] es[comp[k] as int].face_id as u64 == f)
}

/// The finding for boundary component `c`, made of the listed edges.
pub open spec fn boundary_loop_view(es: Seq<BoundaryEdge>, comp: Seq<usize>, c: int) -> FindingView {
    let closed = is_closed_loop(es, comp);
    let nv = loop_vertices(es, comp).len();
    FindingView {
        rule_id: "mesh/boundary-loop"@,
        severity: Severity::Error,
        message: if closed {
            "boundary loop "@ + decimal(c as nat) + " has "@ + decimal(comp.len()) + " edges; mesh surface is open"@
        } else {
            "open boundary component "@ + decimal(c as nat) + " has "@ + decimal(comp.len()) + " edges and "@ + decimal(nv)
                + " vertices"@
        },
        face_ids: ascending(loop_faces(es, comp)).map_values(|f: u64| f as u32),
        metrics: seq![
            ("component"@, count(c)),
            ("edges"@, count(comp.len() as int)),
            ("vertices"@, count(nv as int)),
            ("closed"@, count(if closed { 1 } else { 0 })),
        ],
        recommendation: Some("Fill the boundary, reconnect nearby vertices, or repair the source surface."@),
    }
}

/// The findings for a list of boundary components, in order.
pub open spec fn boundary_loop_views(es: Seq<BoundaryEdge>, comps: Seq<Seq<usize>>) -> Seq<FindingView> {
    Seq::new(comps.len(), |c: int| boundary_loop_view(es, comps[c], c))
}

/// Capped degree counts of the first `k` listed edges.
spec fn degrees_ok(deg: Map<u32, u64>, es: Seq<BoundaryEdge>, comp: Seq<usize>, k: int) -> bool {
    &&& deg.dom() == loop_vertices(es, comp.take(k))
    &&& forall|v: u32| #[trigger] deg.contains_key(v) ==> deg[v] == if edge_degree(es, comp.take(k), v) >= 3 {
        3
    } else {
        edge_degree(es, comp.take(k), v)
    }
}

fn bump(deg: &mut HashMap<u32, u64>, v: u32)
    ensures
        final(deg)@ == old(deg)@.insert(
            v,
            if old(deg)@.contains_key(v) {
                if old(deg)@[v] >= 3 { 3 } else { (old(deg)@[v] + 1) as u64 }
            } else {
                1
            },
        ),
{
    let d: u64 = match deg.get(&v) {
        Some(d) => *d,
        None => 0,
    };
    let nd: u64 = if d >= 3 { 3 } else { d + 1 };
    deg.insert(v, nd);
}

proof fn lemma_degree_step(es: Seq<BoundaryEdge>, comp: Seq<usize>, k: int)
    requires
        0 <= k < comp.len(),
    ensures
        forall|v: u32| #[trigger] edge_degree(es, comp.take(k + 1), v) == edge_degree(es, comp.take(k), v)
            + (if es[comp[k] as int].edge.0 == v { 1nat } else { 0nat }) + (if es[comp[k] as int].edge.1 == v { 1nat } else { 0nat }),
        loop_vertices(es, comp.take(k + 1)) == loop_vertices(es, comp.take(k)).insert(es[comp[k] as int].edge.0).insert(
            es[comp[k] as int].edge.1,
        ),
{
    assert(comp.take(k + 1).drop_last() =~= comp.take(k));
    let e = es[comp[k] as int];
    assert(loop_vertices(es, comp.take(k + 1)) =~= loop_vertices(es, comp.take(k)).insert(e.edge.0).insert(e.edge.1)) by {
        assert forall|v: u32| loop_vertices(es, comp.take(k + 1)).contains(v) <==> loop_vertices(es, comp.take(k)).insert(e.edge.0).insert(e.edge.1).contains(v) by {
            if loop_vertices(es, comp.take(k + 1)).contains(v) {
                let q = choose|q: int| 0 <= q < k + 1 && #[trigger] touches(es[comp.take(k + 1)[q] as int], v);
                if q < k {
                    assert(comp.take(k)[q] == comp.take(k + 1)[q]);
                }
            }
            if loop_vertices(es, comp.take(k)).contains(v) {
                let q = choose|q: int| 0 <= q < k && #[trigger] touches(es[comp.take(k)[q] as int], v);
                assert(comp.take(k + 1)[q] == comp.take(k)[q]);
            }
            if v == e.edge.0 || v == e.edge.1 {
                assert(touches(es[comp.take(k + 1)[k] as int], v));
            }
        }
    }
}

/// The finding for boundary component `c`, made of the listed edges.
fn boundary_loop_finding(es: &Vec<BoundaryEdge>, comp: &Vec<usize>, c: usize) -> (f: Finding)
    requires
        comp@.no_duplicates(),
        forall|k: int| 0 <= k < comp@.len() ==> (#[trigger] comp@[k]) < es@.len(),
    ensures
        f@ == boundary_loop_view(es@, comp@, c as int),
{
    let ghost cv = comp@;
    // vertex degrees, capped at three
    let mut deg: HashMap<u32, u64> = HashMap::new();
    let mut k: usize = 0;
    proof {
        assert(loop_vertices(es@, cv.take(0)) =~= Set::<u32>::empty());
        assert(deg@.dom() =~= Set::<u32>::empty());
    }
    while k < comp.len()
        invariant
            cv == comp@,
            forall|k: int| 0 <= k < cv.len() ==> (#[trigger] cv[k]) < es@.len(),
            0 <= k <= cv.len(),
            degrees_ok(deg@, es@, cv, k as int),
        decreases cv.len() - k,
    {
        let e = es[comp[k]];
        proof {
            lemma_degree_step(es@, cv, k as int);
        }
        let ghost d0 = deg@;
        bump(&mut deg, e.edge.0);
        bump(&mut deg, e.edge.1);
        proof {
            assert(deg@.dom() =~= loop_vertices(es@, cv.take(k + 1)));
            assert forall|v: u32| #[trigger] deg@.contains_key(v) implies deg@[v] == if edge_degree(es@, cv.take(k + 1), v) >= 3 {
                3
            } else {
                edge_degree(es@, cv.take(k + 1), v)
            } by {
                if !d0.contains_key(v) {
                    assert(!loop_vertices(es@, cv.take(k as int)).contains(v));
                    lemma_degree_absent(es@, cv.take(k as int), v);
                }
            }
        }
        k = k + 1;
    }
    proof {
        assert(cv.take(cv.len() as int) =~= cv);
    }
    let nv = deg.len();
    // closed when every endpoint has degree exactly two
    let mut closed = true;
    let mut k: usize = 0;
    while k < comp.len()
        invariant
            cv == comp@,
            forall|k: int| 0 <= k < cv.len() ==> (#[trigger] cv[k]) < es@.len(),
            0 <= k <= cv.len(),
            degrees_ok(deg@, es@, cv, cv.len() as int),
            closed <==> forall|q: int| 0 <= q < k ==> edge_degree(es@, cv, (#[trigger] es@[cv[q] as int]).edge.0) == 2
                && edge_degree(es@, cv, es@[cv[q] as int].edge.1) == 2,
        decreases cv.len() - k,
    {
        let e = es[comp[k]];
        proof {
            assert(cv.take(cv.len() as int) =~= cv);
            assert(touches(es@[cv[k as int] as int], e.edge.0));
            assert(touches(es@[cv[k as int] as int], e.edge.1));
            assert(loop_vertices(es@, cv).contains(e.edge.0));
            assert(loop_vertices(es@, cv).contains(e.edge.1));
        }
        let d0 = *deg.get(&e.edge.0).unwrap();
        let d1 = *deg.get(&e.edge.1).unwrap();
        if !(d0 == 2 && d1 == 2) {
            closed = false;
        }
        k = k + 1;
    }
    // the owning faces, in increasing order, each once
    let mut seen: HashSet<u32> = HashSet::new();
    let mut fids: Vec<u64> = Vec::new();
    let mut k: usize = 0;
    while k < comp.len()
        invariant
            cv == comp@,
            forall|k: int| 0 <= k < cv.len() ==> (#[trigger] cv[k]) < es@.len(),
            0 <= k <= cv.len(),
            fids@.no_duplicates(),
            forall|x: u32| #[trigger] seen@.contains(x) <==> fids@.contains(x as u64),
            fids@.to_set() == loop_faces(es@, cv.take(k as int)),
            forall|q: int| 0 <= q < fids@.len() ==> #[trigger] fids@[q] <= u32::MAX,
        decreases cv.len() - k,
    {
        let e = es[comp[k]];
        let ghost s0 = fids@;
        proof {
            assert(cv.take(k + 1).drop_last() =~= cv.take(k as int));
        }
        if seen.insert(e.face_id) {
            fids.push(e.face_id as u64);
            proof {
                assert(!s0.contains(e.face_id as u64));
                assert(fids@.no_duplicates()) by {
                    assert forall|a: int, b: int| 0 <= a < b < fids@.len() implies fids@[a] != fids@[b] by {
                        if b == fids@.len() - 1 {
                            assert(s0.contains(s0[a]));
                        }
                    }
                }
                assert forall|x: u32| #[trigger] seen@.contains(x) <==> fids@.contains(x as u64) by {
                    if fids@.contains(x as u64) && x != e.face_id {
                        let q = choose|q: int| 0 <= q < fids@.len() && fids@[q] == x as u64;
                        assert(s0[q] == x as u64);
                    }
                    if x == e.face_id {
                        assert(fids@[fids@.len() - 1] == x as u64);
                    }
                    if s0.contains(x as u64) {
                        let q = choose|q: int| 0 <= q < s0.len() && s0[q] == x as u64;
                        assert(fids@[q] == x as u64);
                    }
                }
            }
        } else {
            proof {
                assert(s0.contains(e.face_id as u64));
            }
        }
        proof {
            assert(fids@.to_set() =~= loop_faces(es@, cv.take(k + 1))) by {
                assert forall|f: u64| fids@.to_set().contains(f) <==> loop_faces(es@, cv.take(k + 1)).contains(f) by {
                    if fids@.to_set().contains(f) {
                        let q = choose|q: int| 0 <= q < fids@.len() && fids@[q] == f;
                        if q < s0.len() {
                            assert(s0[q] == f);
                            assert(s0.to_set().contains(f));
                            let r = choose|r: int| 0 <= r < k && #[trigger] es@[cv.take(k as int)[r] as int].face_id as u64 == f;
                            assert(cv.take(k + 1)[r] == cv.take(k as int)[r]);
                        } else {
                            assert(es@[cv.take(k + 1)[k as int] as int].face_id as u64 == f);
                        }
                    }
                    if loop_faces(es@, cv.take(k + 1)).contains(f) {
                        let r = choose|r: int| 0 <= r < k + 1 && #[trigger] es@[cv.take(k + 1)[r] as int].face_id as u64 == f;
                        if r < k {
                            assert(cv.take(k as int)[r] == cv.take(k + 1)[r]);
                            assert(loop_faces(es@, cv.take(k as int)).contains(f));
                            assert(s0.to_set().contains(f));
                            let q = choose|q: int| 0 <= q < s0.len() && s0[q] == f;
                            assert(fids@[q] == f);
                        } else {
                            assert(seen@.contains(e.face_id));
                            assert(fids@.contains(e.face_id as u64));
                        }
                    }
                }
            }
        }
        k = k + 1;
    }
    let ghost fv = fids@;
    let sorted = sort_distinct(fids);
    proof {
        assert(cv.take(cv.len() as int) =~= cv);
        lemma_ascending(sorted@);
        assert forall|q: int| 0 <= q < sorted@.len() implies #[trigger] sorted@[q] <= u32::MAX by {
            assert(sorted@.to_set().contains(sorted@[q]));
            assert(fv.to_set().contains(sorted@[q]));
            let z = choose|z: int| 0 <= z < fv.len() && fv[z] == sorted@[q];
        }
    }
    let mut face_ids: Vec<u32> = Vec::new();
    let mut k: usize = 0;
    while k < sorted.len()
        invariant
            0 <= k <= sorted@.len(),
            forall|q: int| 0 <= q < sorted@.len() ==> #[trigger] sorted@[q] <= u32::MAX,
            face_ids@ == sorted@.take(k as int).map_values(|f: u64| f as u32),
        decreases sorted@.len() - k,
    {
        proof {
            assert(sorted@.to_set().contains(sorted@[k as int]));
        }
        face_ids.push(sorted[k] as u32);
        proof {
            assert(face_ids@ =~= sorted@.take(k + 1).map_values(|f: u64| f as u32));
        }
        k = k + 1;
    }
    proof {
        assert(sorted@.take(sorted@.len() as int) =~= sorted@);
        assert(nv == loop_vertices(es@, cv).len());
        assert(closed == is_closed_loop(es@, cv));
    }
    let edges = comp.len() as u64;
    let mut metrics: Vec<Metric> = Vec::new();
    metrics.push(metric("component", MetricValue::Count(c as u64)));
    metrics.push(metric("edges", MetricValue::Count(edges)));
    metrics.push(metric("vertices", MetricValue::Count(nv as u64)));
    metrics.push(metric("closed", MetricValue::Count(if closed { 1 } else { 0 })));
    let mut message = String::new();
    if closed {
        message.append("boundary loop ");
        message.append(decimal_string(c as u64).as_str());
        message.append(" has ");
        message.append(decimal_string(edges).as_str());
        message.append(" edges; mesh surface is open");
    } else {
        message.append("open boundary component ");
        message.append(decimal_string(c as u64).as_str());
        message.append(" has ");
        message.append(decimal_string(edges).as_str());
        message.append(" edges and ");
        message.append(decimal_string(nv as u64).as_str());
        message.append(" vertices");
    }
    let f = Finding {
        rule_id: String::from_str("mesh/boundary-loop"),
        severity: Severity::Error,
        message,
        face_ids,
        metrics,
        recommendation: Some(String::from_str("Fill the boundary, reconnect nearby vertices, or repair the source surface.")),
    };
    proof {
        assert(metrics_view(f.metrics@) =~= boundary_loop_view(es@, cv, c as int).metrics);
        assert(f.message@ =~= boundary_loop_view(es@, cv, c as int).message);
    }
    f
}

proof fn lemma_degree_absent(es: Seq<BoundaryEdge>, comp: Seq<usize>, v: u32)
    requires
        !loop_vertices(es, comp).contains(v),
    ensures
        edge_degree(es, comp, v) == 0,
    decreases comp.len(),
{
    if comp.len() > 0 {
        let pre = comp.drop_last();
        assert(!loop_vertices(es, pre).contains(v)) by {
            if loop_vertices(es, pre).contains(v) {
                let q = choose|q: int| 0 <= q < pre.len() && #[trigger] touches(es[pre[q] as int], v);
                assert(touches(es[comp[q] as int], v));
            }
        }
        lemma_degree_absent(es, pre, v);
        if touches(es[comp.last() as int], v) {
            assert(touches(es[comp[comp.len() - 1] as int], v));
        }
    }
}

/// The boundary components of a mesh: its boundary edges grouped breadth
/// first, in order of their lowest edge.
pub open spec fn boundary_loops_of(faces: Seq<[u32; 3]>) -> Seq<Seq<usize>> {
    bfs_components(edge_lists(boundary_edges(faces)))
}

/// Reports each connected set of boundary edges (edges used by exactly one
/// face, connected through shared vertices) as one boundary loop, in order of
/// its lowest edge: closed when every vertex on it has degree two.
pub fn check_boundary_loops(faces: &Vec<[u32; 3]>) -> (r: Vec<Finding>)
    requires
        faces@.len() <= u32::MAX,
    ensures
        are_components(
            boundary_edges(faces@).len() as nat,
            meet_relation(boundary_edges(faces@)),
            boundary_loops_of(faces@),
        ),
        findings_view(r@) == boundary_loop_views(boundary_edges(faces@), boundary_loops_of(faces@)),
{
    let es = collect_boundary_edges(faces);
    let comps = boundary_components(&es);
    let ghost cv = lists_view(comps@);
    let mut r: Vec<Finding> = Vec::new();
    let mut c: usize = 0;
    while c < comps.len()
        invariant
            es@ == boundary_edges(faces@),
            cv == lists_view(comps@),
            are_components(es@.len() as nat, meet_relation(es@), cv),
            0 <= c <= cv.len(),
            findings_view(r@) == boundary_loop_views(es@, cv.take(c as int)),
        decreases cv.len() - c,
    {
        proof {
            assert(cv[c as int] == comps@[c as int]@);
        }
        let f = boundary_loop_finding(&es, &comps[c], c);
        let ghost before = r@;
        r.push(f);
        proof {
            assert forall|i: int| 0 <= i < c + 1 implies #[trigger] cv.take(c + 1)[i] == cv[i] by {}
            assert forall|i: int| 0 <= i < c implies #[trigger] cv.take(c as int)[i] == cv[i] by {}
            assert(findings_view(r@) =~= boundary_loop_views(es@, cv.take(c + 1))) by {
                assert(findings_view(r@) =~= findings_view(before).push(f@));
                assert(findings_view(before).len() == c);
                assert(findings_view(r@).len() == c + 1);
                assert forall|i: int| 0 <= i < c + 1 implies findings_view(r@)[i] == boundary_loop_views(es@, cv.take(c + 1))[i] by {
                    if i < c {
                        assert(findings_view(r@)[i] == findings_view(before)[i]);
                        assert(boundary_loop_views(es@, cv.take(c as int))[i] == boundary_loop_view(es@, cv[i], i));
                    }
                }
            }
        }
        c = c + 1;
    }
    proof {
        assert(cv.take(cv.len() as int) =~= cv);
    }
    r
}

} // verus!
