use vstd::prelude::*;
use crate::graph::{are_components, bfs_components, components, listed, lists_relation, lists_view, undirected};
use crate::checks::{count, select_indices};
use crate::ieee::{f32_eq, f32_is_nan, f32_lt, f32_less};
use crate::model::{findings_view, metric, Finding, FindingView, Metric, MetricValue, Severity, metrics_view};
use crate::text::{decimal, decimal_string};
use crate::topology::{
    edge_key, edge_table, face_edge_seq, face_edges, group_faces, group_of, incidences, EdgeTable, Incidence,
};

verus! {

broadcast use vstd::std_specs::hash::group_hash_axioms;

/// Two distinct faces share an undirected edge.
pub open spec fn faces_adjacent(faces: Seq<[u32; 3]>, a: usize, b: usize) -> bool {
    &&& a < faces.len()
    &&& b < faces.len()
    &&& a != b
    &&& exists|i: int, j: int|
        0 <= i < 3 && 0 <= j < 3 && #[trigger] edge_key(face_edge_seq(faces[a as int])[i]) == #[trigger] edge_key(
            face_edge_seq(faces[b as int])[j],
        )
}

/// Face adjacency as a relation.
pub open spec fn face_relation(faces: Seq<[u32; 3]>) -> spec_fn(usize, usize) -> bool {
    |a: usize, b: usize| faces_adjacent(faces, a, b)
}

/// The shells of a mesh are the connected components of face adjacency.
pub open spec fn are_shells(faces: Seq<[u32; 3]>, shells: Seq<Seq<usize>>) -> bool {
    are_components(faces.len(), face_relation(faces), shells)
}

proof fn lemma_group_concat(s: Seq<Incidence>, t: Seq<Incidence>, k: u64)
    ensures
        group_of(s + t, k) == group_of(s, k) + group_of(t, k),
    decreases t.len(),
{
    if t.len() == 0 {
        assert(s + t =~= s);
        assert(group_of(s, k) + group_of(t, k) =~= group_of(s, k));
    } else {
        lemma_group_concat(s, t.drop_last(), k);
        assert((s + t).drop_last() =~= s + t.drop_last());
        assert((s + t).last() == t.last());
        if edge_key(t.last().1) == k {
            assert(group_of(s, k) + group_of(t, k) =~= (group_of(s, k) + group_of(t.drop_last(), k)).push(t.last()));
        }
    }
}

proof fn lemma_group_contains(inc: Seq<Incidence>, k: u64, q: int)
    requires
        0 <= q < inc.len(),
        edge_key(inc[q].1) == k,
    ensures
        group_of(inc, k).contains(inc[q]),
    decreases inc.len(),
{
    let g = group_of(inc.drop_last(), k);
    if q == inc.len() - 1 {
        assert(group_of(inc, k)[g.len() as int] == inc[q]);
    } else {
        lemma_group_contains(inc.drop_last(), k, q);
        let z = choose|z: int| 0 <= z < g.len() && g[z] == inc[q];
        assert(group_of(inc, k)[z] == inc[q]);
    }
}

/// A face appears in the group of edge key `k` exactly when one of its edges has that key.
proof fn lemma_group_membership(faces: Seq<[u32; 3]>, k: u64, b: u32)
    requires
        faces.len() <= u32::MAX,
    ensures
        group_faces(group_of(incidences(faces), k)).contains(b) <==> (b < faces.len() && exists|j: int|
            0 <= j < 3 && #[trigger] edge_key(face_edge_seq(faces[b as int])[j]) == k),
    decreases faces.len(),
{
    if faces.len() > 0 {
        let pre = faces.drop_last();
        let i = faces.len() - 1;
        let e = face_edge_seq(faces.last());
        let tail = seq![(i as u32, e[0]), (i as u32, e[1]), (i as u32, e[2])];
        lemma_group_membership(pre, k, b);
        lemma_group_concat(incidences(pre), tail, k);
        reveal_with_fuel(group_of, 4);
        let gp = group_of(incidences(pre), k);
        let gt = group_of(tail, k);
        assert(group_faces(gp + gt) =~= group_faces(gp) + group_faces(gt));
        assert(tail.drop_last().drop_last().drop_last() =~= Seq::<Incidence>::empty());
        assert(tail.drop_last().drop_last().last() == (i as u32, e[0]));
        assert(tail.drop_last().last() == (i as u32, e[1]));
        assert(tail.last() == (i as u32, e[2]));
        assert forall|x: u32| group_faces(gt).contains(x) implies x == i as u32 by {
            if group_faces(gt).contains(x) {
                let q = choose|q: int| 0 <= q < group_faces(gt).len() && group_faces(gt)[q] == x;
            }
        }
        if b < pre.len() {
            assert(pre[b as int] == faces[b as int]);
        }
        if b == i {
            if exists|j: int| 0 <= j < 3 && #[trigger] edge_key(face_edge_seq(faces[b as int])[j]) == k {
                let j = choose|j: int| 0 <= j < 3 && #[trigger] edge_key(face_edge_seq(faces[b as int])[j]) == k;
                assert(faces[b as int] == faces.last());
                assert(tail[j] == (i as u32, e[j]));
                lemma_group_contains(tail, k, j);
                let q = choose|q: int| 0 <= q < gt.len() && gt[q].0 == i as u32;
                assert(group_faces(gt)[q] == b);
                assert(group_faces(gp + gt)[group_faces(gp).len() + q] == b);
            }
            if group_faces(gp).contains(b) {
                assert(b < pre.len());
            }
        }
        if b < pre.len() && group_faces(gp).contains(b) {
            let q = choose|q: int| 0 <= q < group_faces(gp).len() && group_faces(gp)[q] == b;
            assert(group_faces(gp + gt)[q] == b);
        }
        if group_faces(gp + gt).contains(b) {
            let q = choose|q: int| 0 <= q < group_faces(gp + gt).len() && group_faces(gp + gt)[q] == b;
            if q < group_faces(gp).len() {
                assert(group_faces(gp)[q] == b);
            } else {
                assert(group_faces(gt)[q - group_faces(gp).len()] == b);
                assert(group_faces(gt).contains(b));
            }
        }
    }
}

/// The faces of the incidences other than face `a`, in order.
pub open spec fn others(g: Seq<Incidence>, a: usize) -> Seq<usize>
    decreases g.len(),
{
    if g.len() == 0 {
        Seq::empty()
    } else {
        let r = others(g.drop_last(), a);
        if g.last().0 as usize != a {
            r.push(g.last().0 as usize)
        } else {
            r
        }
    }
}

/// The other faces on the first `i` edges of face `a`, edge by edge.
pub open spec fn neighbor_parts(faces: Seq<[u32; 3]>, a: usize, i: int) -> Seq<usize>
    decreases i,
{
    if i <= 0 {
        Seq::empty()
    } else {
        neighbor_parts(faces, a, i - 1) + others(
            group_of(incidences(faces), edge_key(face_edge_seq(faces[a as int])[i - 1])),
            a,
        )
    }
}

/// The neighbor list of face `a`: for each of its edges in winding order, the
/// other faces on that edge in face order.
pub open spec fn neighbor_list(faces: Seq<[u32; 3]>, a: usize) -> Seq<usize> {
    neighbor_parts(faces, a, 3)
}

/// The neighbor lists of all faces.
pub open spec fn adjacency_lists(faces: Seq<[u32; 3]>) -> Seq<Seq<usize>> {
    Seq::new(faces.len(), |a: int| neighbor_list(faces, a as usize))
}

/// The neighbors of face `a`: the other faces of the groups of its three edges.
fn neighbors_of(faces: &Vec<[u32; 3]>, table: &EdgeTable, a: usize) -> (r: Vec<usize>)
    requires
        faces@.len() <= u32::MAX,
        table.describes(faces@),
        a < faces@.len(),
    ensures
        forall|b: usize| #[trigger] r@.contains(b) <==> faces_adjacent(faces@, a, b),
        r@ == neighbor_list(faces@, a),
{
    let ghost fs = faces@;
    let es = face_edges(faces[a]);
    let mut r: Vec<usize> = Vec::new();
    let mut i: usize = 0;
    while i < 3
        invariant
            fs == faces@,
            fs.len() <= u32::MAX,
            table.describes(fs),
            a < fs.len(),
            es@ == face_edge_seq(fs[a as int]),
            0 <= i <= 3,
            r@ == neighbor_parts(fs, a, i as int),
            forall|b: usize| #[trigger] r@.contains(b) <==> (b < fs.len() && b != a && exists|p: int, j: int|
                0 <= p < i && 0 <= j < 3 && #[trigger] edge_key(face_edge_seq(fs[a as int])[p]) == #[trigger] edge_key(face_edge_seq(fs[b as int])[j])),
        decreases 3 - i,
    {
        let k = key_of_edge(es[i]);
        let g = group_for(table, k, Ghost(fs), Ghost(a as int), Ghost(i as int));
        let mut q: usize = 0;
        let ghost r0 = r@;
        while q < g.len()
            invariant
                fs == faces@,
                fs.len() <= u32::MAX,
                a < fs.len(),
                0 <= i < 3,
                0 <= q <= g@.len(),
                g@ == group_of(incidences(fs), k),
                k == edge_key(face_edge_seq(fs[a as int])[i as int]),
                r@ == r0 + others(g@.take(q as int), a),
                forall|b: usize| #[trigger] r@.contains(b) <==> (r0.contains(b) || exists|t: int|
                    0 <= t < q && g@[t].0 as usize == b && b != a),
            decreases g@.len() - q,
        {
            let f = g[q].0 as usize;
            let ghost before = r@;
            proof {
                assert(g@.take(q + 1).drop_last() =~= g@.take(q as int));
                assert(g@.take(q + 1).last() == g@[q as int]);
            }
            if f != a {
                r.push(f);
            }
            proof {
                assert(r@ =~= r0 + others(g@.take(q + 1), a));
            }
            proof {
                assert forall|b: usize| #[trigger] r@.contains(b) <==> (r0.contains(b) || exists|t: int|
                    0 <= t < q + 1 && g@[t].0 as usize == b && b != a) by {
                    if r@.contains(b) && !before.contains(b) {
                        assert(b == f);
                        assert(g@[q as int].0 as usize == b);
                    }
                    if before.contains(b) {
                        let z = choose|z: int| 0 <= z < before.len() && before[z] == b;
                        assert(r@[z] == b);
                    }
                    if exists|t: int| 0 <= t < q + 1 && g@[t].0 as usize == b && b != a {
                        let t = choose|t: int| 0 <= t < q + 1 && g@[t].0 as usize == b && b != a;
                        if t == q {
                            assert(r@[r@.len() - 1] == b);
                        }
                    }
                }
            }
            q = q + 1;
        }
        proof {
            assert(g@.take(g@.len() as int) =~= g@);
            assert(r@ =~= neighbor_parts(fs, a, i + 1));
        }
        proof {
            assert forall|b: usize| #[trigger] r@.contains(b) <==> (b < fs.len() && b != a && exists|p: int, j: int|
                0 <= p < i + 1 && 0 <= j < 3 && #[trigger] edge_key(face_edge_seq(fs[a as int])[p]) == #[trigger] edge_key(face_edge_seq(fs[b as int])[j])) by {
                lemma_group_membership(fs, k, b as u32);
                let gf = group_faces(g@);
                if exists|t: int| 0 <= t < g@.len() && g@[t].0 as usize == b && b != a {
                    let t = choose|t: int| 0 <= t < g@.len() && g@[t].0 as usize == b && b != a;
                    assert(gf[t] == g@[t].0);
                    assert(b as u32 == g@[t].0);
                    assert((b as u32) as int == b as int);
                    assert(gf.contains(b as u32));
                    let j = choose|j: int| 0 <= j < 3 && #[trigger] edge_key(face_edge_seq(fs[b as int])[j]) == k;
                    assert(edge_key(face_edge_seq(fs[a as int])[i as int]) == edge_key(face_edge_seq(fs[b as int])[j]));
                }
                if b < fs.len() && b != a && exists|p: int, j: int|
                    0 <= p < i + 1 && 0 <= j < 3 && #[trigger] edge_key(face_edge_seq(fs[a as int])[p]) == #[trigger] edge_key(face_edge_seq(fs[b as int])[j]) {
                    let (p, j) = choose|p: int, j: int|
                        0 <= p < i + 1 && 0 <= j < 3 && #[trigger] edge_key(face_edge_seq(fs[a as int])[p]) == #[trigger] edge_key(face_edge_seq(fs[b as int])[j]);
                    if p == i {
                        assert(edge_key(face_edge_seq(fs[b as int])[j]) == k);
                        assert((b as u32) as int == b as int);
                        assert(gf.contains(b as u32));
                        let t = choose|t: int| 0 <= t < gf.len() && gf[t] == b;
                        assert(g@[t].0 as usize == b);
                    }
                }
            }
        }
        i = i + 1;
    }
    r
}

fn key_of_edge(e: (u32, u32)) -> (k: u64)
    ensures
        k == edge_key(e),
{
    let (a, b) = if e.0 < e.1 { e } else { (e.1, e.0) };
    a as u64 * 0x1_0000_0000 + b as u64
}

fn group_for(table: &EdgeTable, k: u64, Ghost(faces): Ghost<Seq<[u32; 3]>>, Ghost(a): Ghost<int>, Ghost(i): Ghost<int>) -> (g: &Vec<Incidence>)
    requires
        table.describes(faces),
        0 <= a < faces.len(),
        0 <= i < 3,
        k == edge_key(face_edge_seq(faces[a])[i]),
    ensures
        g@ == group_of(incidences(faces), k),
{
    proof {
        lemma_key_in_table(faces, a, i);
        assert(table.keys@.to_set().contains(k));
        let p = choose|p: int| 0 <= p < table.keys@.len() && table.keys@[p] == k;
        assert(table.groups@.contains_key(table.keys@[p]));
    }
    table.groups.get(&k).unwrap()
}

proof fn lemma_key_in_table(faces: Seq<[u32; 3]>, a: int, i: int)
    requires
        0 <= a < faces.len(),
        0 <= i < 3,
    ensures
        crate::topology::edge_keys(faces).contains(edge_key(face_edge_seq(faces[a])[i])),
    decreases faces.len(),
{
    let pre = faces.drop_last();
    let inc = incidences(faces);
    let m = inc.map_values(|x: Incidence| edge_key(x.1));
    crate::topology::lemma_incidences_unfold(faces);
    if a < faces.len() - 1 {
        lemma_key_in_table(pre, a, i);
        assert(pre[a] == faces[a]);
        let mp = incidences(pre).map_values(|x: Incidence| edge_key(x.1));
        let q = choose|q: int| 0 <= q < mp.len() && mp[q] == edge_key(face_edge_seq(faces[a])[i]);
        crate::topology::lemma_incidences_unfold(pre);
        assert(inc[q] == incidences(pre)[q]);
        assert(m[q] == mp[q]);
    } else {
        crate::topology::lemma_incidences_unfold(pre);
        let q = 3 * pre.len() + i;
        assert(inc[q].1 == face_edge_seq(faces[a])[i]);
        assert(m[q] == edge_key(face_edge_seq(faces[a])[i]));
    }
}

/// The adjacency lists of the faces: face `b` is listed for face `a` exactly
/// when they are distinct and share an undirected edge.
pub fn face_adjacency(faces: &Vec<[u32; 3]>) -> (adj: Vec<Vec<usize>>)
    requires
        faces@.len() <= u32::MAX,
    ensures
        adj@.len() == faces@.len(),
        lists_relation(lists_view(adj@), face_relation(faces@)),
        lists_view(adj@) == adjacency_lists(faces@),
{
    let table = edge_table(faces);
    let mut adj: Vec<Vec<usize>> = Vec::new();
    let mut a: usize = 0;
    while a < faces.len()
        invariant
            faces@.len() <= u32::MAX,
            table.describes(faces@),
            0 <= a <= faces@.len(),
            adj@.len() == a,
            forall|x: int| 0 <= x < a ==> #[trigger] adj@[x]@ == neighbor_list(faces@, x as usize),
            forall|x: usize, b: usize| x < a ==> (#[trigger] lists_view(adj@)[x as int].contains(b) <==> faces_adjacent(faces@, x, b)),
        decreases faces@.len() - a,
    {
        let r = neighbors_of(faces, &table, a);
        let ghost old_adj = adj@;
        adj.push(r);
        proof {
            assert forall|x: usize, b: usize| x < a + 1 implies (#[trigger] lists_view(adj@)[x as int].contains(b) <==> faces_adjacent(faces@, x, b)) by {
                assert(lists_view(adj@)[x as int] == adj@[x as int]@);
                if x == a {
                    assert(adj@[x as int] == r);
                } else {
                    assert(adj@[x as int] == old_adj[x as int]);
                    assert(lists_view(old_adj)[x as int] == old_adj[x as int]@);
                }
            }
            assert forall|x: int| 0 <= x < a + 1 implies #[trigger] adj@[x]@ == neighbor_list(faces@, x as usize) by {
                if x < a {
                    assert(adj@[x] == old_adj[x]);
                }
            }
        }
        a = a + 1;
    }
    proof {
        assert(lists_view(adj@) =~= adjacency_lists(faces@));
        assert forall|x: usize, b: usize| #[trigger] listed(lists_view(adj@), x, b) <==> face_relation(faces@)(x, b) by {
            if x < a {
                assert(lists_view(adj@)[x as int].contains(b) <==> faces_adjacent(faces@, x, b));
            }
        }
    }
    adj
}

/// Splits the faces into shells: connected sets of faces that share edges.
/// Shells are ordered by their smallest face index, which comes first; the
/// other faces of a shell follow in breadth-first order.
pub fn connected_shells(faces: &Vec<[u32; 3]>) -> (shells: Vec<Vec<usize>>)
    requires
        faces@.len() <= u32::MAX,
    ensures
        are_shells(faces@, lists_view(shells@)),
        lists_view(shells@) == bfs_components(adjacency_lists(faces@)),
{
    let adj = face_adjacency(faces);
    proof {
        let rel = face_relation(faces@);
        assert forall|a: usize, b: usize| #[trigger] rel(a, b) implies rel(b, a) && a < adj@.len() && b < adj@.len() by {
            let (i, j) = choose|i: int, j: int|
                0 <= i < 3 && 0 <= j < 3 && #[trigger] edge_key(face_edge_seq(faces@[a as int])[i]) == #[trigger] edge_key(
                    face_edge_seq(faces@[b as int])[j]);
            assert(edge_key(face_edge_seq(faces@[b as int])[j]) == edge_key(face_edge_seq(faces@[a as int])[i]));
        }
    }
    components(&adj, Ghost(face_relation(faces@)))
}

// ---------------------------------------------------------------------------
// The primary shell and loose shells

/// Shell `a` (size bit pattern `sa`, `la` faces) ranks above shell `b`:
/// larger by size, or, where the sizes do not compare (equal, or a NaN), by
/// face count.
pub open spec fn ranks_above(sa: u32, la: int, sb: u32, lb: int) -> bool {
    f32_lt(sb, sa) || (!f32_lt(sa, sb) && !f32_lt(sb, sa) && la > lb)
}

/// The index of the primary shell among the first `n`: scanning in order, a
/// later shell takes over unless the current one ranks above it.
pub open spec fn primary_among(sizes: Seq<u32>, lens: Seq<int>, n: int) -> Option<int>
    decreases n,
{
    if n <= 0 {
        None
    } else {
        match primary_among(sizes, lens, n - 1) {
            None => Some(n - 1),
            Some(m) => if ranks_above(sizes[m], lens[m], sizes[n - 1], lens[n - 1]) {
                Some(m)
            } else {
                Some(n - 1)
            },
        }
    }
}

pub proof fn lemma_primary_range(sizes: Seq<u32>, lens: Seq<int>, n: int)
    ensures
        n <= 0 ==> primary_among(sizes, lens, n) is None,
        n > 0 ==> (primary_among(sizes, lens, n) matches Some(m) && 0 <= m < n),
    decreases n,
{
    if n > 0 {
        lemma_primary_range(sizes, lens, n - 1);
    }
}

pub open spec fn shell_lens(shells: Seq<Seq<usize>>) -> Seq<int> {
    shells.map_values(|s: Seq<usize>| s.len() as int)
}

/// The primary shell: the largest by estimated size, ties going to more
/// faces and then to the later shell. `sizes[i]` is the bit pattern of the
/// size estimate of shell `i`.
pub fn primary_shell_index(shells: &Vec<Vec<usize>>, sizes: &Vec<u32>) -> (r: Option<usize>)
    requires
        sizes@.len() == shells@.len(),
    ensures
        r == match primary_among(sizes@, shell_lens(lists_view(shells@)), shells@.len() as int) {
            Some(m) => Some(m as usize),
            None => None::<usize>,
        },
        r is Some <==> shells@.len() > 0,
        r matches Some(m) ==> m < shells@.len(),
{
    let ghost lens = shell_lens(lists_view(shells@));
    let mut best: Option<usize> = None;
    let mut i: usize = 0;
    while i < shells.len()
        invariant
            sizes@.len() == shells@.len(),
            lens == shell_lens(lists_view(shells@)),
            0 <= i <= shells@.len(),
            best == match primary_among(sizes@, lens, i as int) {
                Some(m) => Some(m as usize),
                None => None::<usize>,
            },
            best is Some <==> i > 0,
            best matches Some(m) ==> m < i,
        decreases shells@.len() - i,
    {
        proof {
            assert(lens[i as int] == shells@[i as int]@.len());
            lemma_primary_range(sizes@, lens, i as int);
            lemma_primary_range(sizes@, lens, i + 1);
        }
        match best {
            None => {
                best = Some(i);
            },
            Some(m) => {
                proof {
                    assert(lens[m as int] == shells@[m as int]@.len());
                }
                let a = sizes[m];
                let b = sizes[i];
                let above = f32_less(b, a) || (!f32_less(a, b) && !f32_less(b, a) && shells[m].len() > shells[i].len());
                if !above {
                    best = Some(i);
                }
            },
        }
        i = i + 1;
    }
    best
}

/// The finding for loose shell `i` of size bit pattern `size`, against the
/// tiny-shell threshold `tiny` (written `tiny_text` in messages).
pub open spec fn loose_shell_view(shell: Seq<usize>, i: int, size: u32, tiny: u32, tiny_text: Seq<char>) -> FindingView {
    let metrics = seq![
        ("shell"@, count(i)),
        ("faces"@, count(shell.len() as int)),
        ("size_estimate_mm3"@, MetricValue::Single(size)),
        ("threshold_mm3"@, MetricValue::Single(tiny)),
    ];
    let face_ids = shell.map_values(|f: usize| f as u32);
    if f32_lt(size, tiny) {
        FindingView {
            rule_id: "mesh/tiny-shell"@,
            severity: Severity::Warn,
            message: "shell "@ + decimal(i as nat) + " has "@ + decimal(shell.len()) + " faces and is below "@
                + tiny_text + " mm3"@,
            face_ids,
            metrics,
            recommendation: Some("Run with --fix to remove tiny loose shells."@),
        }
    } else {
        FindingView {
            rule_id: "mesh/disconnected-shell"@,
            severity: Severity::Warn,
            message: "shell "@ + decimal(i as nat) + " is disconnected from the primary shell and has "@ + decimal(
                shell.len(),
            ) + " faces"@,
            face_ids,
            metrics,
            recommendation: Some("Check whether this loose shell is intentional."@),
        }
    }
}

/// The summary finding for a mesh of `n` shells.
pub open spec fn shells_summary_view(n: nat) -> FindingView {
    FindingView {
        rule_id: "mesh/disconnected-shells-summary"@,
        severity: Severity::Info,
        message: "mesh contains "@ + decimal(n) + " disconnected shells"@,
        face_ids: Seq::empty(),
        metrics: seq![("shells"@, count(n as int))],
        recommendation: None,
    }
}

/// One finding per shell other than the primary one, in shell order, then a
/// summary when there is more than one shell.
pub open spec fn shell_findings(shells: Seq<Seq<usize>>, sizes: Seq<u32>, tiny: u32, tiny_text: Seq<char>) -> Seq<FindingView> {
    let primary = primary_among(sizes, shell_lens(shells), shells.len() as int);
    let loose = select_indices(
        shells.len() as int,
        |i: int| if primary == Some(i) { None } else { Some(loose_shell_view(shells[i], i, sizes[i], tiny, tiny_text)) },
    );
    if shells.len() > 1 {
        loose.push(shells_summary_view(shells.len()))
    } else {
        loose
    }
}

fn face_ids_u32(shell: &Vec<usize>) -> (r: Vec<u32>)
    requires
        forall|k: int| 0 <= k < shell@.len() ==> #[trigger] shell@[k] <= u32::MAX,
    ensures
        r@ == shell@.map_values(|f: usize| f as u32),
{
    let mut r: Vec<u32> = Vec::new();
    let mut k: usize = 0;
    while k < shell.len()
        invariant
            forall|k: int| 0 <= k < shell@.len() ==> #[trigger] shell@[k] <= u32::MAX,
            0 <= k <= shell@.len(),
            r@ == shell@.take(k as int).map_values(|f: usize| f as u32),
        decreases shell@.len() - k,
    {
        r.push(shell[k] as u32);
        proof {
            assert(r@ =~= shell@.take(k + 1).map_values(|f: usize| f as u32));
        }
        k = k + 1;
    }
    proof {
        assert(shell@.take(shell@.len() as int) =~= shell@);
    }
    r
}

fn loose_shell_finding(shell: &Vec<usize>, i: usize, size: u32, tiny: u32, tiny_text: &str) -> (f: Finding)
    requires
        forall|k: int| 0 <= k < shell@.len() ==> #[trigger] shell@[k] <= u32::MAX,
    ensures
        f@ == loose_shell_view(shell@, i as int, size, tiny, tiny_text@),
{
    let mut metrics: Vec<Metric> = Vec::new();
    metrics.push(metric("shell", MetricValue::Count(i as u64)));
    metrics.push(metric("faces", MetricValue::Count(shell.len() as u64)));
    metrics.push(metric("size_estimate_mm3", MetricValue::Single(size)));
    metrics.push(metric("threshold_mm3", MetricValue::Single(tiny)));
    let face_ids = face_ids_u32(shell);
    let mut message = String::from_str("shell ");
    message.append(decimal_string(i as u64).as_str());
    let f = if f32_less(size, tiny) {
        message.append(" has ");
        message.append(decimal_string(shell.len() as u64).as_str());
        message.append(" faces and is below ");
        message.append(tiny_text);
        message.append(" mm3");
        Finding {
            rule_id: String::from_str("mesh/tiny-shell"),
            severity: Severity::Warn,
            message,
            face_ids,
            metrics,
            recommendation: Some(String::from_str("Run with --fix to remove tiny loose shells.")),
        }
    } else {
        message.append(" is disconnected from the primary shell and has ");
        message.append(decimal_string(shell.len() as u64).as_str());
        message.append(" faces");
        Finding {
            rule_id: String::from_str("mesh/disconnected-shell"),
            severity: Severity::Warn,
            message,
            face_ids,
            metrics,
            recommendation: Some(String::from_str("Check whether this loose shell is intentional.")),
        }
    };
    proof {
        assert(metrics_view(f.metrics@) =~= loose_shell_view(shell@, i as int, size, tiny, tiny_text@).metrics);
    }
    f
}

/// Reports every shell other than the primary one (as tiny when its size is
/// below `tiny`, else as disconnected) and, for more than one shell, a
/// summary. `sizes[i]` is the bit pattern of the size estimate of shell `i`;
/// `tiny_text` is the threshold as written in messages.
pub fn check_shells(shells: &Vec<Vec<usize>>, sizes: &Vec<u32>, tiny: u32, tiny_text: &str) -> (r: Vec<Finding>)
    requires
        sizes@.len() == shells@.len(),
        forall|c: int, k: int| 0 <= c < shells@.len() && 0 <= k < shells@[c]@.len() ==> #[trigger] shells@[c]@[k] <= u32::MAX,
    ensures
        findings_view(r@) == shell_findings(lists_view(shells@), sizes@, tiny, tiny_text@),
{
    let ghost sv = lists_view(shells@);
    let primary = primary_shell_index(shells, sizes);
    let ghost p = primary_among(sizes@, shell_lens(sv), sv.len() as int);
    proof {
        lemma_primary_range(sizes@, shell_lens(sv), sv.len() as int);
    }
    let ghost sel = |i: int| if p == Some(i) { None } else { Some(loose_shell_view(sv[i], i, sizes@[i], tiny, tiny_text@)) };
    let mut r: Vec<Finding> = Vec::new();
    let mut i: usize = 0;
    while i < shells.len()
        invariant
            sizes@.len() == shells@.len(),
            sv == lists_view(shells@),
            forall|c: int, k: int| 0 <= c < shells@.len() && 0 <= k < shells@[c]@.len() ==> #[trigger] shells@[c]@[k] <= u32::MAX,
            primary == match p {
                Some(m) => Some(m as usize),
                None => None::<usize>,
            },
            p matches Some(m) ==> 0 <= m < shells@.len(),
            sel == (|i: int| if p == Some(i) { None } else { Some(loose_shell_view(sv[i], i, sizes@[i], tiny, tiny_text@)) }),
            0 <= i <= shells@.len(),
            findings_view(r@) == select_indices(i as int, sel),
        decreases shells@.len() - i,
    {
        proof {
            assert(sv[i as int] == shells@[i as int]@);
        }
        if primary != Some(i) {
            let f = loose_shell_finding(&shells[i], i, sizes[i], tiny, tiny_text);
            let ghost before = r@;
            r.push(f);
            proof {
                assert(sel(i as int) == Some(f@));
                assert(findings_view(r@) =~= findings_view(before).push(f@));
            }
        } else {
            proof {
                assert(sel(i as int) is None);
            }
        }
        i = i + 1;
    }
    if shells.len() > 1 {
        let mut message = String::from_str("mesh contains ");
        message.append(decimal_string(shells.len() as u64).as_str());
        message.append(" disconnected shells");
        let mut metrics: Vec<Metric> = Vec::new();
        metrics.push(metric("shells", MetricValue::Count(shells.len() as u64)));
        let f = Finding {
            rule_id: String::from_str("mesh/disconnected-shells-summary"),
            severity: Severity::Info,
            message,
            face_ids: Vec::new(),
            metrics,
            recommendation: None,
        };
        let ghost before = r@;
        r.push(f);
        proof {
            assert(metrics_view(f.metrics@) =~= shells_summary_view(sv.len()).metrics);
            assert(f.face_ids@ =~= Seq::<u32>::empty());
            assert(findings_view(r@) =~= findings_view(before).push(f@));
        }
    }
    r
}


/// Among shells whose sizes are all numbers, the primary shell is a largest
/// one; among the largest, one with the most faces; among those, the last.
pub proof fn law_primary_is_largest(sizes: Seq<u32>, lens: Seq<int>, n: int, d: int)
    requires
        0 <= d < n,
        forall|i: int| 0 <= i < n ==> !f32_is_nan(#[trigger] sizes[i]),
    ensures
        primary_among(sizes, lens, n) is Some,
        ({
            let p = primary_among(sizes, lens, n)->Some_0;
            &&& 0 <= p < n
            &&& !f32_lt(sizes[p], sizes[d])
            &&& f32_eq(sizes[p], sizes[d]) ==> lens[p] >= lens[d]
            &&& f32_eq(sizes[p], sizes[d]) && lens[p] == lens[d] ==> p >= d
        }),
    decreases n,
{
    lemma_primary_range(sizes, lens, n);
    assert(!f32_is_nan(sizes[d]));
    assert(!f32_is_nan(sizes[n - 1]));
    if n > 1 {
        lemma_primary_range(sizes, lens, n - 1);
        let m = primary_among(sizes, lens, n - 1)->Some_0;
        assert(!f32_is_nan(sizes[m]));
        if d < n - 1 {
            law_primary_is_largest(sizes, lens, n - 1, d);
        }
    }
}

/// The finding reports shell `c` as loose: its faces, its index, and, by its
/// rule, whether its size is below the tiny-shell threshold.
pub open spec fn reports_loose_shell(f: FindingView, shell: Seq<usize>, c: int, size: u32, tiny: u32) -> bool {
    &&& f.face_ids == shell.map_values(|x: usize| x as u32)
    &&& f.metrics[0] == ("shell"@, count(c))
    &&& f.rule_id == if f32_lt(size, tiny) { "mesh/tiny-shell"@ } else { "mesh/disconnected-shell"@ }
}

/// Shell `c` is one of the shells other than the primary one.
pub open spec fn is_loose_shell(shells: Seq<Seq<usize>>, sizes: Seq<u32>, c: int) -> bool {
    0 <= c < shells.len() && primary_among(sizes, shell_lens(shells), shells.len() as int) != Some(c)
}

/// The finding reports one of the shells other than the primary one.
pub open spec fn reports_a_loose_shell(f: FindingView, shells: Seq<Seq<usize>>, sizes: Seq<u32>, tiny: u32) -> bool {
    exists|c: int|
        0 <= c < shells.len() && primary_among(sizes, shell_lens(shells), shells.len() as int) != Some(c)
            && #[trigger] reports_loose_shell(f, shells[c], c, sizes[c], tiny)
}

proof fn lemma_select_len_all_but_one<B>(n: int, f: spec_fn(int) -> Option<B>, p: int)
    requires
        0 <= p < n,
        f(p) is None,
        forall|i: int| 0 <= i < n && i != p ==> #[trigger] f(i) is Some,
    ensures
        select_indices(n, f).len() == n - 1,
    decreases n,
{
    if n - 1 == p {
        lemma_select_len_all(n - 1, f);
    } else {
        lemma_select_len_all_but_one(n - 1, f, p);
    }
}

proof fn lemma_select_len_all<B>(n: int, f: spec_fn(int) -> Option<B>)
    requires
        0 <= n,
        forall|i: int| 0 <= i < n ==> #[trigger] f(i) is Some,
    ensures
        select_indices(n, f).len() == n,
    decreases n,
{
    if n > 0 {
        lemma_select_len_all(n - 1, f);
    }
}

/// Every shell other than the primary one is reported, as tiny when its size
/// is below the threshold (and as disconnected otherwise), with its faces;
/// nothing else is, except a closing summary of the number of shells when
/// there is more than one. A mesh of one shell gets no shell finding.
pub proof fn law_loose_shells_reported(shells: Seq<Seq<usize>>, sizes: Seq<u32>, tiny: u32, tiny_text: Seq<char>)
    ensures
        shell_findings(shells, sizes, tiny, tiny_text).len() == if shells.len() > 1 { shells.len() as int } else { 0 },
        shells.len() > 1 ==> shell_findings(shells, sizes, tiny, tiny_text).last().message == "mesh contains "@ + decimal(
            shells.len(),
        ) + " disconnected shells"@,
        forall|c: int|
            #[trigger] is_loose_shell(shells, sizes, c) ==> exists|j: int|
                0 <= j < shell_findings(shells, sizes, tiny, tiny_text).len() && #[trigger] reports_loose_shell(
                    shell_findings(shells, sizes, tiny, tiny_text)[j],
                    shells[c],
                    c,
                    sizes[c],
                    tiny,
                ),
        forall|j: int|
            0 <= j < shell_findings(shells, sizes, tiny, tiny_text).len() - 1 ==> #[trigger] reports_a_loose_shell(
                shell_findings(shells, sizes, tiny, tiny_text)[j],
                shells,
                sizes,
                tiny,
            ),
{
    let n = shells.len() as int;
    let primary = primary_among(sizes, shell_lens(shells), n);
    let f = |i: int| if primary == Some(i) { None } else { Some(loose_shell_view(shells[i], i, sizes[i], tiny, tiny_text)) };
    let loose = select_indices(n, f);
    let r = shell_findings(shells, sizes, tiny, tiny_text);
    lemma_primary_range(sizes, shell_lens(shells), n);
    let idx = crate::quality::lemma_select_indices_positions(n, f);
    if n > 0 {
        let p = primary->Some_0;
        assert forall|i: int| 0 <= i < n && i != p implies #[trigger] f(i) is Some by {}
        lemma_select_len_all_but_one(n, f, p);
    }
    if n > 1 {
        assert(r == loose.push(shells_summary_view(shells.len())));
    } else {
        assert(r == loose);
    }
    assert forall|c: int|
        #[trigger] is_loose_shell(shells, sizes, c) implies exists|j: int|
            0 <= j < shell_findings(shells, sizes, tiny, tiny_text).len() && #[trigger] reports_loose_shell(
                shell_findings(shells, sizes, tiny, tiny_text)[j],
                shells[c],
                c,
                sizes[c],
                tiny,
            ) by {
        assert(f(c) is Some);
        let j = choose|j: int| 0 <= j < idx.len() && idx[j] == c;
        assert(loose[j] == f(c)->0);
        assert(r[j] == loose[j]);
        assert(reports_loose_shell(r[j], shells[c], c, sizes[c], tiny));
    }
    assert forall|j: int|
        0 <= j < shell_findings(shells, sizes, tiny, tiny_text).len() - 1 implies #[trigger] reports_a_loose_shell(
            shell_findings(shells, sizes, tiny, tiny_text)[j],
            shells,
            sizes,
            tiny,
        ) by {
        assert(j < loose.len());
        let c = idx[j];
        assert(f(c) is Some);
        assert(loose[j] == f(c)->0);
        assert(r[j] == loose[j]);
        assert(reports_loose_shell(r[j], shells[c], c, sizes[c], tiny));
    }
}

} // verus!
