use vstd::prelude::*;
use crate::model::{findings_view, metric, Finding, FindingView, Metric, MetricValue, Severity, metrics_view};
use crate::sort::{ascending, strictly_increasing};
use crate::ieee::{f32_lt, f32_le, f32_less, f32_less_eq, F32_EPSILON_BITS, F32_ZERO_BITS};
use crate::text::{decimal, decimal_string};
use crate::topology::{
    edge_key, edge_keys, edge_table, group_faces, group_of, incidences, key_edge, EdgeTable, Incidence,
};
use std::collections::HashMap;

verus! {

broadcast use vstd::std_specs::hash::group_hash_axioms;

/// The results of `f` on the elements of `s` where it gives one, in order.
pub open spec fn select<A, B>(s: Seq<A>, f: spec_fn(A) -> Option<B>) -> Seq<B>
    decreases s.len(),
{
    if s.len() == 0 {
        Seq::empty()
    } else {
        let r = select(s.drop_last(), f);
        match f(s.last()) {
            Some(b) => r.push(b),
            None => r,
        }
    }
}

pub proof fn lemma_select_step<A, B>(s: Seq<A>, f: spec_fn(A) -> Option<B>, i: int)
    requires
        0 <= i < s.len(),
    ensures
        select(s.take(i + 1), f) == match f(s[i]) {
            Some(b) => select(s.take(i), f).push(b),
            None => select(s.take(i), f),
        },
{
    assert(s.take(i + 1).drop_last() =~= s.take(i));
    assert(s.take(i + 1).last() == s[i]);
}

pub open spec fn count(n: int) -> MetricValue {
    MetricValue::Count(n as u64)
}

pub fn face_ids_of(g: &Vec<Incidence>) -> (r: Vec<u32>)
    ensures
        r@ == group_faces(g@),
{
    let mut r: Vec<u32> = Vec::new();
    let mut i: usize = 0;
    while i < g.len()
        invariant
            0 <= i <= g@.len(),
            r@ == group_faces(g@.take(i as int)),
        decreases g@.len() - i,
    {
        r.push(g[i].0);
        proof {
            assert(r@ =~= group_faces(g@.take(i + 1)));
        }
        i = i + 1;
    }
    proof {
        assert(g@.take(g@.len() as int) =~= g@);
    }
    r
}

pub fn group_in(table: &EdgeTable, i: usize, Ghost(faces): Ghost<Seq<[u32; 3]>>) -> (g: &Vec<Incidence>)
    requires
        table.describes(faces),
        i < table.keys@.len(),
    ensures
        g@ == group_of(incidences(faces), table.keys@[i as int]),
{
    let k = table.keys[i];
    proof {
        assert(table.groups@.contains_key(table.keys@[i as int]));
    }
    table.groups.get(&k).unwrap()
}

// ---------------------------------------------------------------------------
// Non-manifold edges

/// The finding for an edge that is not shared by exactly two faces.
pub open spec fn non_manifold_view(k: u64, g: Seq<Incidence>) -> FindingView {
    let e = key_edge(k);
    FindingView {
        rule_id: "mesh/non-manifold"@,
        severity: Severity::Error,
        message: "edge "@ + decimal(e.0 as nat) + "-"@ + decimal(e.1 as nat) + " is shared by "@ + decimal(
            g.len(),
        ) + " faces; expected 2"@,
        face_ids: group_faces(g),
        metrics: seq![("vertex_a"@, count(e.0 as int)), ("vertex_b"@, count(e.1 as int)), ("faces"@, count(g.len() as int))],
        recommendation: Some("Repair open boundaries, duplicate surfaces, or T-junctions before printing."@),
    }
}

pub open spec fn non_manifold_entry(faces: Seq<[u32; 3]>, k: u64) -> Option<FindingView> {
    let g = group_of(incidences(faces), k);
    if g.len() != 2 {
        Some(non_manifold_view(k, g))
    } else {
        None
    }
}

/// One finding per undirected edge used by a number of faces other than two,
/// in increasing order of the edge's (smaller, larger) vertex pair.
pub open spec fn non_manifold_findings(faces: Seq<[u32; 3]>) -> Seq<FindingView> {
    select(ascending(edge_keys(faces)), |k: u64| non_manifold_entry(faces, k))
}

fn non_manifold_finding(k: u64, g: &Vec<Incidence>) -> (f: Finding)
    ensures
        f@ == non_manifold_view(k, g@),
{
    let a = (k / 0x1_0000_0000) as u32;
    let b = (k % 0x1_0000_0000) as u32;
    let n = g.len() as u64;
    let mut message = String::from_str("edge ");
    message.append(decimal_string(a as u64).as_str());
    message.append("-");
    message.append(decimal_string(b as u64).as_str());
    message.append(" is shared by ");
    message.append(decimal_string(n).as_str());
    message.append(" faces; expected 2");
    let mut metrics: Vec<Metric> = Vec::new();
    metrics.push(metric("vertex_a", MetricValue::Count(a as u64)));
    metrics.push(metric("vertex_b", MetricValue::Count(b as u64)));
    metrics.push(metric("faces", MetricValue::Count(n)));
    let f = Finding {
        rule_id: String::from_str("mesh/non-manifold"),
        severity: Severity::Error,
        message,
        face_ids: face_ids_of(g),
        metrics,
        recommendation: Some(String::from_str("Repair open boundaries, duplicate surfaces, or T-junctions before printing.")),
    };
    proof {
        assert(metrics_view(f.metrics@) =~= non_manifold_view(k, g@).metrics);
    }
    f
}

/// Reports every undirected edge that is not shared by exactly two faces.
pub fn check_non_manifold(faces: &Vec<[u32; 3]>) -> (r: Vec<Finding>)
    requires
        faces@.len() <= u32::MAX,
    ensures
        findings_view(r@) == non_manifold_findings(faces@),
{
    let table = edge_table(faces);
    let ghost fs = faces@;
    let ghost sel = |k: u64| non_manifold_entry(fs, k);
    let mut r: Vec<Finding> = Vec::new();
    let mut i: usize = 0;
    while i < table.keys.len()
        invariant
            table.describes(fs),
            fs == faces@,
            sel == (|k: u64| non_manifold_entry(fs, k)),
            0 <= i <= table.keys@.len(),
            findings_view(r@) == select(table.keys@.take(i as int), sel),
        decreases table.keys@.len() - i,
    {
        let g = group_in(&table, i, Ghost(fs));
        let k = table.keys[i];
        proof {
            lemma_select_step(table.keys@, sel, i as int);
        }
        proof {
            assert(sel(k) == non_manifold_entry(fs, k));
            assert(k == table.keys@[i as int]);
        }
        if g.len() != 2 {
            let f = non_manifold_finding(k, g);
            let ghost before = r@;
            r.push(f);
            proof {
                assert(sel(k) == Some(f@));
                assert(findings_view(r@) =~= findings_view(before).push(f@));
            }
        } else {
            proof {
                assert(sel(k) is None);
            }
        }
        i = i + 1;
    }
    proof {
        assert(table.keys@.take(table.keys@.len() as int) =~= table.keys@);
    }
    r
}

/// The results of `f` on the indices `0..n` where it gives one, in order.
pub open spec fn select_indices<B>(n: int, f: spec_fn(int) -> Option<B>) -> Seq<B>
    decreases n,
{
    if n <= 0 {
        Seq::empty()
    } else {
        let r = select_indices(n - 1, f);
        match f(n - 1) {
            Some(b) => r.push(b),
            None => r,
        }
    }
}

// ---------------------------------------------------------------------------
// Inconsistent winding

/// The finding for two faces that traverse their shared edge the same way.
pub open spec fn inconsistent_view(k: u64, g: Seq<Incidence>) -> FindingView {
    let e = key_edge(k);
    FindingView {
        rule_id: "mesh/inconsistent-normals"@,
        severity: Severity::Warn,
        message: "faces "@ + decimal(g[0].0 as nat) + " and "@ + decimal(g[1].0 as nat)
            + " traverse shared edge "@ + decimal(e.0 as nat) + "-"@ + decimal(e.1 as nat)
            + " in the same direction"@,
        face_ids: seq![g[0].0, g[1].0],
        metrics: seq![("vertex_a"@, count(e.0 as int)), ("vertex_b"@, count(e.1 as int))],
        recommendation: Some("Run with --fix to reorient face winding consistently."@),
    }
}

pub open spec fn inconsistent_entry(faces: Seq<[u32; 3]>, k: u64) -> Option<FindingView> {
    let g = group_of(incidences(faces), k);
    if g.len() == 2 && g[0].1 == g[1].1 {
        Some(inconsistent_view(k, g))
    } else {
        None
    }
}

/// One finding per undirected edge shared by exactly two faces that both
/// traverse it in the same direction, in increasing edge order.
pub open spec fn inconsistent_findings(faces: Seq<[u32; 3]>) -> Seq<FindingView> {
    select(ascending(edge_keys(faces)), |k: u64| inconsistent_entry(faces, k))
}

fn inconsistent_finding(k: u64, g: &Vec<Incidence>) -> (f: Finding)
    requires
        g@.len() == 2,
    ensures
        f@ == inconsistent_view(k, g@),
{
    let a = (k / 0x1_0000_0000) as u32;
    let b = (k % 0x1_0000_0000) as u32;
    let fa = g[0].0;
    let fb = g[1].0;
    let mut message = String::from_str("faces ");
    message.append(decimal_string(fa as u64).as_str());
    message.append(" and ");
    message.append(decimal_string(fb as u64).as_str());
    message.append(" traverse shared edge ");
    message.append(decimal_string(a as u64).as_str());
    message.append("-");
    message.append(decimal_string(b as u64).as_str());
    message.append(" in the same direction");
    let mut metrics: Vec<Metric> = Vec::new();
    metrics.push(metric("vertex_a", MetricValue::Count(a as u64)));
    metrics.push(metric("vertex_b", MetricValue::Count(b as u64)));
    let mut face_ids: Vec<u32> = Vec::new();
    face_ids.push(fa);
    face_ids.push(fb);
    let f = Finding {
        rule_id: String::from_str("mesh/inconsistent-normals"),
        severity: Severity::Warn,
        message,
        face_ids,
        metrics,
        recommendation: Some(String::from_str("Run with --fix to reorient face winding consistently.")),
    };
    proof {
        assert(metrics_view(f.metrics@) =~= inconsistent_view(k, g@).metrics);
        assert(f.face_ids@ =~= inconsistent_view(k, g@).face_ids);
    }
    f
}

/// Reports every pair of faces that traverse their shared edge in the same
/// direction (only for edges shared by exactly two faces).
pub fn check_normal_consistency(faces: &Vec<[u32; 3]>) -> (r: Vec<Finding>)
    requires
        faces@.len() <= u32::MAX,
    ensures
        findings_view(r@) == inconsistent_findings(faces@),
{
    let table = edge_table(faces);
    let ghost fs = faces@;
    let ghost sel = |k: u64| inconsistent_entry(fs, k);
    let mut r: Vec<Finding> = Vec::new();
    let mut i: usize = 0;
    while i < table.keys.len()
        invariant
            table.describes(fs),
            fs == faces@,
            sel == (|k: u64| inconsistent_entry(fs, k)),
            0 <= i <= table.keys@.len(),
            findings_view(r@) == select(table.keys@.take(i as int), sel),
        decreases table.keys@.len() - i,
    {
        let g = group_in(&table, i, Ghost(fs));
        let k = table.keys[i];
        proof {
            lemma_select_step(table.keys@, sel, i as int);
            assert(sel(k) == inconsistent_entry(fs, k));
        }
        let hit = if g.len() == 2 {
            let (fa, (a0, a1)) = g[0];
            let (fb, (b0, b1)) = g[1];
            a0 == b0 && a1 == b1
        } else {
            false
        };
        if hit {
            let f = inconsistent_finding(k, g);
            let ghost before = r@;
            r.push(f);
            proof {
                assert(findings_view(r@) =~= findings_view(before).push(f@));
            }
        }
        i = i + 1;
    }
    proof {
        assert(table.keys@.take(table.keys@.len() as int) =~= table.keys@);
    }
    r
}

// ---------------------------------------------------------------------------
// Boundary edges

/// An edge used by exactly one face.
#[derive(Clone, Copy, Debug)]
pub struct BoundaryEdge {
    pub edge: (u32, u32),
    pub face_id: u32,
}

pub open spec fn boundary_entry(faces: Seq<[u32; 3]>, k: u64) -> Option<BoundaryEdge> {
    let g = group_of(incidences(faces), k);
    if g.len() == 1 {
        Some(BoundaryEdge { edge: key_edge(k), face_id: g[0].0 })
    } else {
        None
    }
}

/// The edges used by exactly one face, in increasing edge order, each with its face.
pub open spec fn boundary_edges(faces: Seq<[u32; 3]>) -> Seq<BoundaryEdge> {
    select(ascending(edge_keys(faces)), |k: u64| boundary_entry(faces, k))
}

/// The edges used by exactly one face, in increasing edge order.
pub fn collect_boundary_edges(faces: &Vec<[u32; 3]>) -> (r: Vec<BoundaryEdge>)
    requires
        faces@.len() <= u32::MAX,
    ensures
        r@ == boundary_edges(faces@),
{
    let table = edge_table(faces);
    let ghost fs = faces@;
    let ghost sel = |k: u64| boundary_entry(fs, k);
    let mut r: Vec<BoundaryEdge> = Vec::new();
    let mut i: usize = 0;
    while i < table.keys.len()
        invariant
            table.describes(fs),
            fs == faces@,
            sel == (|k: u64| boundary_entry(fs, k)),
            0 <= i <= table.keys@.len(),
            r@ == select(table.keys@.take(i as int), sel),
        decreases table.keys@.len() - i,
    {
        let g = group_in(&table, i, Ghost(fs));
        let k = table.keys[i];
        proof {
            lemma_select_step(table.keys@, sel, i as int);
            assert(sel(k) == boundary_entry(fs, k));
        }
        if g.len() == 1 {
            let e = (((k / 0x1_0000_0000) as u32), ((k % 0x1_0000_0000) as u32));
            r.push(BoundaryEdge { edge: e, face_id: g[0].0 });
        }
        i = i + 1;
    }
    proof {
        assert(table.keys@.take(table.keys@.len() as int) =~= table.keys@);
    }
    r
}

// ---------------------------------------------------------------------------
// Duplicate faces

/// The vertex indices of a face in increasing order.
pub open spec fn sorted_face(f: [u32; 3]) -> (u32, u32, u32) {
    let lo = if f[0] <= f[1] && f[0] <= f[2] { f[0] } else if f[1] <= f[2] { f[1] } else { f[2] };
    let hi = if f[0] >= f[1] && f[0] >= f[2] { f[0] } else if f[1] >= f[2] { f[1] } else { f[2] };
    (lo, (f[0] + f[1] + f[2] - lo - hi) as u32, hi)
}

/// The index of the first face among the first `n` with the same vertex
/// indices as `f` in any order, or -1.
pub open spec fn first_alike(faces: Seq<[u32; 3]>, f: [u32; 3], n: int) -> int
    decreases n,
{
    if n <= 0 {
        -1
    } else {
        let j = first_alike(faces, f, n - 1);
        if j >= 0 {
            j
        } else if sorted_face(faces[n - 1]) == sorted_face(f) {
            n - 1
        } else {
            -1
        }
    }
}

/// The finding for face `i`, a duplicate of the earlier face `j`.
pub open spec fn duplicate_view(j: int, i: int) -> FindingView {
    FindingView {
        rule_id: "mesh/duplicate-face"@,
        severity: Severity::Warn,
        message: "face "@ + decimal(i as nat) + " duplicates face "@ + decimal(j as nat),
        face_ids: seq![j as u32, i as u32],
        metrics: seq![("original_face"@, count(j)), ("duplicate_face"@, count(i))],
        recommendation: Some("Run with --fix to remove duplicate faces."@),
    }
}

pub open spec fn duplicate_entry(faces: Seq<[u32; 3]>, i: int) -> Option<FindingView> {
    let j = first_alike(faces, faces[i], i);
    if j >= 0 {
        Some(duplicate_view(j, i))
    } else {
        None
    }
}

/// One finding per face that uses the same three vertices as an earlier face,
/// naming the first such face, in face order.
pub open spec fn duplicate_findings(faces: Seq<[u32; 3]>) -> Seq<FindingView> {
    select_indices(faces.len() as int, |i: int| duplicate_entry(faces, i))
}

pub fn sort_face(f: [u32; 3]) -> (r: (u32, u32, u32))
    ensures
        r == sorted_face(f),
{
    let lo = if f[0] <= f[1] && f[0] <= f[2] { f[0] } else if f[1] <= f[2] { f[1] } else { f[2] };
    let hi = if f[0] >= f[1] && f[0] >= f[2] { f[0] } else if f[1] >= f[2] { f[1] } else { f[2] };
    let mid = ((f[0] as u64 + f[1] as u64 + f[2] as u64) - lo as u64 - hi as u64) as u32;
    (lo, mid, hi)
}

pub open spec fn face_key(t: (u32, u32, u32)) -> u128 {
    (t.0 as int * 0x1_0000_0000_0000_0000 + t.1 as int * 0x1_0000_0000 + t.2 as int) as u128
}

pub proof fn lemma_face_key(a: (u32, u32, u32), b: (u32, u32, u32))
    ensures
        (face_key(a) == face_key(b)) <==> (a == b),
{
    if face_key(a) == face_key(b) {
        let ka = a.0 as int * 0x1_0000_0000_0000_0000 + a.1 as int * 0x1_0000_0000 + a.2 as int;
        let kb = b.0 as int * 0x1_0000_0000_0000_0000 + b.1 as int * 0x1_0000_0000 + b.2 as int;
        assert(ka == kb);
        assert(a.0 == b.0 && a.1 == b.1 && a.2 == b.2) by (nonlinear_arith)
            requires
                ka == kb,
                ka == a.0 as int * 0x1_0000_0000_0000_0000 + a.1 as int * 0x1_0000_0000 + a.2 as int,
                kb == b.0 as int * 0x1_0000_0000_0000_0000 + b.1 as int * 0x1_0000_0000 + b.2 as int,
                0 <= a.0 < 0x1_0000_0000, 0 <= a.1 < 0x1_0000_0000, 0 <= a.2 < 0x1_0000_0000,
                0 <= b.0 < 0x1_0000_0000, 0 <= b.1 < 0x1_0000_0000, 0 <= b.2 < 0x1_0000_0000,
        ;
    }
}

pub fn key_of_face(t: (u32, u32, u32)) -> (k: u128)
    ensures
        k == face_key(t),
{
    t.0 as u128 * 0x1_0000_0000_0000_0000 + t.1 as u128 * 0x1_0000_0000 + t.2 as u128
}

/// The first-occurrence table of sorted faces after `n` faces.
spec fn seen_ok(seen: Map<u128, u32>, faces: Seq<[u32; 3]>, n: int) -> bool {
    &&& forall|k: u128|
        #[trigger] seen.contains_key(k) ==> 0 <= seen[k] < n && face_key(sorted_face(faces[seen[k] as int])) == k
            && first_alike(faces, faces[seen[k] as int], n) == seen[k]
    &&& forall|i: int| 0 <= i < n ==> seen.contains_key(#[trigger] face_key(sorted_face(faces[i])))
}

pub proof fn lemma_first_alike(faces: Seq<[u32; 3]>, f: [u32; 3], n: int)
    requires
        0 <= n <= faces.len(),
    ensures
        -1 <= first_alike(faces, f, n) < n,
        first_alike(faces, f, n) >= 0 ==> sorted_face(faces[first_alike(faces, f, n)]) == sorted_face(f),
        first_alike(faces, f, n) < 0 ==> forall|i: int| 0 <= i < n ==> sorted_face(#[trigger] faces[i]) != sorted_face(f),
        forall|m: int| n <= m <= faces.len() && first_alike(faces, f, n) >= 0 ==> #[trigger] first_alike(faces, f, m) == first_alike(faces, f, n),
    decreases n,
{
    if n > 0 {
        lemma_first_alike(faces, f, n - 1);
    }
    assert forall|m: int| n <= m <= faces.len() && first_alike(faces, f, n) >= 0 implies #[trigger] first_alike(faces, f, m) == first_alike(faces, f, n) by {
        lemma_first_alike_stable(faces, f, n, m);
    }
}

proof fn lemma_first_alike_stable(faces: Seq<[u32; 3]>, f: [u32; 3], n: int, m: int)
    requires
        0 <= n <= m,
        first_alike(faces, f, n) >= 0,
    ensures
        first_alike(faces, f, m) == first_alike(faces, f, n),
    decreases m - n,
{
    if m > n {
        lemma_first_alike_stable(faces, f, n, m - 1);
    }
}

fn duplicate_finding(j: u32, i: u32) -> (f: Finding)
    ensures
        f@ == duplicate_view(j as int, i as int),
{
    let mut message = String::from_str("face ");
    message.append(decimal_string(i as u64).as_str());
    message.append(" duplicates face ");
    message.append(decimal_string(j as u64).as_str());
    let mut metrics: Vec<Metric> = Vec::new();
    metrics.push(metric("original_face", MetricValue::Count(j as u64)));
    metrics.push(metric("duplicate_face", MetricValue::Count(i as u64)));
    let mut face_ids: Vec<u32> = Vec::new();
    face_ids.push(j);
    face_ids.push(i);
    let f = Finding {
        rule_id: String::from_str("mesh/duplicate-face"),
        severity: Severity::Warn,
        message,
        face_ids,
        metrics,
        recommendation: Some(String::from_str("Run with --fix to remove duplicate faces.")),
    };
    proof {
        assert(metrics_view(f.metrics@) =~= duplicate_view(j as int, i as int).metrics);
        assert(f.face_ids@ =~= duplicate_view(j as int, i as int).face_ids);
    }
    f
}

/// Reports every face that uses the same three vertices (in any order) as an
/// earlier face.
pub fn check_duplicate_faces(faces: &Vec<[u32; 3]>) -> (r: Vec<Finding>)
    requires
        faces@.len() <= u32::MAX,
    ensures
        findings_view(r@) == duplicate_findings(faces@),
{
    let ghost fs = faces@;
    let ghost sel = |i: int| duplicate_entry(fs, i);
    let mut seen: HashMap<u128, u32> = HashMap::new();
    let mut r: Vec<Finding> = Vec::new();
    let mut i: usize = 0;
    while i < faces.len()
        invariant
            fs == faces@,
            fs.len() <= u32::MAX,
            sel == (|i: int| duplicate_entry(fs, i)),
            0 <= i <= fs.len(),
            seen_ok(seen@, fs, i as int),
            findings_view(r@) == select_indices(i as int, sel),
        decreases fs.len() - i,
    {
        let f = faces[i];
        let key = key_of_face(sort_face(f));
        proof {
            lemma_first_alike(fs, f, i as int);
        }
        match seen.get(&key) {
            Some(j) => {
                let j = *j;
                proof {
                    lemma_face_key(sorted_face(fs[j as int]), sorted_face(f));
                    lemma_first_alike(fs, fs[j as int], i as int);
                    lemma_first_alike_congruent(fs, f, fs[j as int], i as int);
                    assert(sel(i as int) == Some(duplicate_view(j as int, i as int)));
                }
                let finding = duplicate_finding(j, i as u32);
                let ghost before = r@;
                r.push(finding);
                proof {
                    assert(findings_view(r@) =~= findings_view(before).push(finding@));
                    assert(seen_ok(seen@, fs, i + 1)) by {
                        assert forall|k: u128| #[trigger] seen@.contains_key(k) implies 0 <= seen@[k] < i + 1
                            && face_key(sorted_face(fs[seen@[k] as int])) == k
                            && first_alike(fs, fs[seen@[k] as int], i + 1) == seen@[k] by {
                            lemma_first_alike(fs, fs[seen@[k] as int], i as int);
                        }
                    }
                }
            },
            None => {
                proof {
                    assert(first_alike(fs, f, i as int) < 0) by {
                        let q = first_alike(fs, f, i as int);
                        if q >= 0 {
                            assert(seen@.contains_key(face_key(sorted_face(fs[q]))));
                        }
                    }
                    assert(sel(i as int) is None);
                }
                seen.insert(key, i as u32);
                proof {
                    assert(first_alike(fs, f, i + 1) == i);
                    assert(seen_ok(seen@, fs, i + 1)) by {
                        assert forall|k: u128| #[trigger] seen@.contains_key(k) implies 0 <= seen@[k] < i + 1
                            && face_key(sorted_face(fs[seen@[k] as int])) == k
                            && first_alike(fs, fs[seen@[k] as int], i + 1) == seen@[k] by {
                            if k != key {
                                lemma_first_alike(fs, fs[seen@[k] as int], i as int);
                            }
                        }
                    }
                }
            },
        }
        i = i + 1;
    }
    r
}

proof fn lemma_first_alike_congruent(faces: Seq<[u32; 3]>, f: [u32; 3], g: [u32; 3], n: int)
    requires
        sorted_face(f) == sorted_face(g),
    ensures
        first_alike(faces, f, n) == first_alike(faces, g, n),
    decreases n,
{
    if n > 0 {
        lemma_first_alike_congruent(faces, f, g, n - 1);
    }
}

// ---------------------------------------------------------------------------
// Degenerate faces

/// The face repeats a vertex index.
pub open spec fn repeats_vertex(f: [u32; 3]) -> bool {
    f[0] == f[1] || f[1] == f[2] || f[0] == f[2]
}

/// The finding for degenerate face `i` whose area has bit pattern `area`.
pub open spec fn degenerate_view(i: int, area: u32, repeated: bool) -> FindingView {
    FindingView {
        rule_id: "mesh/degenerate-face"@,
        severity: Severity::Error,
        message: "face "@ + decimal(i as nat) + " is degenerate"@,
        face_ids: seq![i as u32],
        metrics: seq![("area_mm2"@, MetricValue::Single(area)), ("repeated_vertex"@, count(if repeated { 1 } else { 0 }))],
        recommendation: Some("Run with --fix to remove degenerate faces."@),
    }
}

/// A face is degenerate when it repeats a vertex or its area is not above
/// binary32 epsilon (a NaN area counts as degenerate).
pub open spec fn degenerate_entry(faces: Seq<[u32; 3]>, areas: Seq<u32>, i: int) -> Option<FindingView> {
    if repeats_vertex(faces[i]) || !f32_lt(F32_EPSILON_BITS, areas[i]) {
        Some(degenerate_view(i, areas[i], repeats_vertex(faces[i])))
    } else {
        None
    }
}

/// One finding per degenerate face, in face order.
pub open spec fn degenerate_findings(faces: Seq<[u32; 3]>, areas: Seq<u32>) -> Seq<FindingView> {
    select_indices(faces.len() as int, |i: int| degenerate_entry(faces, areas, i))
}

fn repeated_vertex(f: [u32; 3]) -> (r: bool)
    ensures
        r == repeats_vertex(f),
{
    f[0] == f[1] || f[1] == f[2] || f[0] == f[2]
}

/// Reports every degenerate face; `areas[i]` is the binary32 bit pattern of
/// the area of face `i`.
pub fn check_degenerate_faces(faces: &Vec<[u32; 3]>, areas: &Vec<u32>) -> (r: Vec<Finding>)
    requires
        faces@.len() <= u32::MAX,
        areas@.len() == faces@.len(),
    ensures
        findings_view(r@) == degenerate_findings(faces@, areas@),
{
    let ghost fs = faces@;
    let ghost sel = |i: int| degenerate_entry(fs, areas@, i);
    let mut r: Vec<Finding> = Vec::new();
    let mut i: usize = 0;
    while i < faces.len()
        invariant
            fs == faces@,
            fs.len() <= u32::MAX,
            areas@.len() == fs.len(),
            sel == (|i: int| degenerate_entry(fs, areas@, i)),
            0 <= i <= fs.len(),
            findings_view(r@) == select_indices(i as int, sel),
        decreases fs.len() - i,
    {
        let f = faces[i];
        let area = areas[i];
        let repeated = repeated_vertex(f);
        if repeated || !f32_less(F32_EPSILON_BITS, area) {
            let mut message = String::from_str("face ");
            message.append(decimal_string(i as u64).as_str());
            message.append(" is degenerate");
            let mut metrics: Vec<Metric> = Vec::new();
            metrics.push(metric("area_mm2", MetricValue::Single(area)));
            metrics.push(metric("repeated_vertex", MetricValue::Count(if repeated { 1 } else { 0 })));
            let mut face_ids: Vec<u32> = Vec::new();
            face_ids.push(i as u32);
            let finding = Finding {
                rule_id: String::from_str("mesh/degenerate-face"),
                severity: Severity::Error,
                message,
                face_ids,
                metrics,
                recommendation: Some(String::from_str("Run with --fix to remove degenerate faces.")),
            };
            let ghost before = r@;
            r.push(finding);
            proof {
                assert(metrics_view(finding.metrics@) =~= degenerate_view(i as int, area, repeated).metrics);
                assert(finding.face_ids@ =~= degenerate_view(i as int, area, repeated).face_ids);
                assert(sel(i as int) == Some(finding@));
                assert(findings_view(r@) =~= findings_view(before).push(finding@));
            }
        } else {
            proof {
                assert(sel(i as int) is None);
            }
        }
        i = i + 1;
    }
    r
}

// ---------------------------------------------------------------------------
// Inverted winding

/// The finding for a mesh whose signed volume has bit pattern `volume`.
pub open spec fn inverted_view(volume: u32) -> FindingView {
    FindingView {
        rule_id: "mesh/inverted-normals"@,
        severity: Severity::Warn,
        message: "mesh winding appears globally inverted"@,
        face_ids: Seq::empty(),
        metrics: seq![("signed_volume_mm3"@, MetricValue::Single(volume))],
        recommendation: Some("Run with --fix to flip face winding outward."@),
    }
}

/// Reports a mesh wound inward: one finding unless the signed volume (a
/// binary32 bit pattern) is at least zero.
pub fn check_inverted_normals(signed_volume: u32) -> (r: Vec<Finding>)
    ensures
        f32_le(F32_ZERO_BITS, signed_volume) ==> r@.len() == 0,
        !f32_le(F32_ZERO_BITS, signed_volume) ==> findings_view(r@) == seq![inverted_view(signed_volume)],
{
    let mut r: Vec<Finding> = Vec::new();
    if f32_less_eq(F32_ZERO_BITS, signed_volume) {
        return r;
    }
    let mut metrics: Vec<Metric> = Vec::new();
    metrics.push(metric("signed_volume_mm3", MetricValue::Single(signed_volume)));
    let finding = Finding {
        rule_id: String::from_str("mesh/inverted-normals"),
        severity: Severity::Warn,
        message: String::from_str("mesh winding appears globally inverted"),
        face_ids: Vec::new(),
        metrics,
        recommendation: Some(String::from_str("Run with --fix to flip face winding outward.")),
    };
    r.push(finding);
    proof {
        assert(metrics_view(finding.metrics@) =~= inverted_view(signed_volume).metrics);
        assert(finding.face_ids@ =~= Seq::<u32>::empty());
        assert(findings_view(r@) =~= seq![inverted_view(signed_volume)]);
    }
    r
}

// ---------------------------------------------------------------------------
// Self-intersections

/// The finding for two intersecting faces.
pub open spec fn self_intersection_view(a: u32, b: u32) -> FindingView {
    FindingView {
        rule_id: "mesh/self-intersection"@,
        severity: Severity::Error,
        message: "faces "@ + decimal(a as nat) + " and "@ + decimal(b as nat) + " intersect"@,
        face_ids: seq![a, b],
        metrics: seq![("face_a"@, count(a as int)), ("face_b"@, count(b as int))],
        recommendation: Some("Separate or boolean-repair intersecting surfaces in the source model."@),
    }
}

/// The finding for faces `a` and `b` that cross each other.
pub fn self_intersection_finding(a: u32, b: u32) -> (f: Finding)
    ensures
        f@ == self_intersection_view(a, b),
{
    let mut message = String::from_str("faces ");
    message.append(decimal_string(a as u64).as_str());
    message.append(" and ");
    message.append(decimal_string(b as u64).as_str());
    message.append(" intersect");
    let mut metrics: Vec<Metric> = Vec::new();
    metrics.push(metric("face_a", MetricValue::Count(a as u64)));
    metrics.push(metric("face_b", MetricValue::Count(b as u64)));
    let mut face_ids: Vec<u32> = Vec::new();
    face_ids.push(a);
    face_ids.push(b);
    let f = Finding {
        rule_id: String::from_str("mesh/self-intersection"),
        severity: Severity::Error,
        message,
        face_ids,
        metrics,
        recommendation: Some(String::from_str("Separate or boolean-repair intersecting surfaces in the source model.")),
    };
    proof {
        assert(metrics_view(f.metrics@) =~= self_intersection_view(a, b).metrics);
        assert(f.face_ids@ =~= self_intersection_view(a, b).face_ids);
    }
    f
}


/// Every face that repeats a vertex, or whose area is not above binary32
/// epsilon (a NaN area included), is reported as degenerate, naming that
/// face; no other face is, and the findings come in face order.
pub proof fn law_degenerate_reports_exactly(faces: Seq<[u32; 3]>, areas: Seq<u32>)
    requires
        faces.len() <= u32::MAX,
    ensures
        ({
            let r = degenerate_findings(faces, areas);
            &&& forall|i: int|
                0 <= i < faces.len() && ((#[trigger] faces[i])[0] == faces[i][1] || faces[i][1] == faces[i][2] || faces[i][0]
                    == faces[i][2] || !f32_lt(F32_EPSILON_BITS, areas[i])) ==> exists|j: int|
                    0 <= j < r.len() && (#[trigger] r[j]).face_ids == seq![i as u32]
            &&& forall|j: int|
                0 <= j < r.len() ==> exists|i: int|
                    0 <= i < faces.len() && ((#[trigger] faces[i])[0] == faces[i][1] || faces[i][1] == faces[i][2]
                        || faces[i][0] == faces[i][2] || !f32_lt(F32_EPSILON_BITS, areas[i])) && (#[trigger] r[j]).face_ids
                        == seq![i as u32] && r[j].rule_id == "mesh/degenerate-face"@ && r[j].message == "face "@
                        + decimal(i as nat) + " is degenerate"@
            &&& forall|j: int, k: int| 0 <= j < k < r.len() ==> (#[trigger] r[j]).face_ids[0] < (#[trigger] r[k]).face_ids[0]
        }),
{
    let f = |i: int| degenerate_entry(faces, areas, i);
    let r = degenerate_findings(faces, areas);
    let idx = crate::quality::lemma_select_indices_positions(faces.len() as int, f);
    assert forall|i: int|
        0 <= i < faces.len() && ((#[trigger] faces[i])[0] == faces[i][1] || faces[i][1] == faces[i][2] || faces[i][0]
            == faces[i][2] || !f32_lt(F32_EPSILON_BITS, areas[i])) implies exists|j: int|
            0 <= j < r.len() && (#[trigger] r[j]).face_ids == seq![i as u32] by {
        assert(f(i) is Some);
        let j = choose|j: int| 0 <= j < idx.len() && idx[j] == i;
        assert(r[j] == f(idx[j])->0);
    }
    assert forall|j: int| 0 <= j < r.len() implies exists|i: int|
        0 <= i < faces.len() && ((#[trigger] faces[i])[0] == faces[i][1] || faces[i][1] == faces[i][2]
            || faces[i][0] == faces[i][2] || !f32_lt(F32_EPSILON_BITS, areas[i])) && (#[trigger] r[j]).face_ids
            == seq![i as u32] && r[j].rule_id == "mesh/degenerate-face"@ && r[j].message == "face "@
            + decimal(i as nat) + " is degenerate"@ by {
        let i = idx[j];
        assert(f(i) is Some);
        assert(r[j] == f(i)->0);
    }
    assert forall|j: int, k: int| 0 <= j < k < r.len() implies (#[trigger] r[j]).face_ids[0] < (#[trigger] r[k]).face_ids[0] by {
        assert(r[j] == f(idx[j])->0);
        assert(r[k] == f(idx[k])->0);
        assert(r[j].face_ids[0] == idx[j] as u32);
        assert(r[k].face_ids[0] == idx[k] as u32);
    }
}


/// The finding reports face `i` as a duplicate of face `j`, the first earlier
/// face with the same three vertices in any order.
pub open spec fn reports_duplicate(f: FindingView, faces: Seq<[u32; 3]>, j: int, i: int) -> bool {
    &&& 0 <= j < i
    &&& sorted_face(faces[j]) == sorted_face(faces[i])
    &&& forall|k: int| 0 <= k < j ==> sorted_face(#[trigger] faces[k]) != sorted_face(faces[i])
    &&& f.rule_id == "mesh/duplicate-face"@
    &&& f.face_ids == seq![j as u32, i as u32]
    &&& f.message == "face "@ + decimal(i as nat) + " duplicates face "@ + decimal(j as nat)
}

/// The finding reports some face of the mesh as a duplicate.
pub open spec fn reports_a_duplicate(f: FindingView, faces: Seq<[u32; 3]>) -> bool {
    exists|j: int, i: int| i < faces.len() && #[trigger] reports_duplicate(f, faces, j, i)
}

/// Every face that uses the same three vertices as an earlier face is
/// reported, naming the first such face; nothing else is, and the findings
/// come in order of the repeating face.
pub proof fn law_duplicates_reported(faces: Seq<[u32; 3]>)
    requires
        faces.len() <= u32::MAX,
    ensures
        forall|i: int, j: int|
            0 <= j < i < faces.len() && sorted_face(#[trigger] faces[j]) == sorted_face(#[trigger] faces[i]) ==> exists|x: int, k: int|
                0 <= x < duplicate_findings(faces).len() && #[trigger] reports_duplicate(duplicate_findings(faces)[x], faces, k, i),
        forall|x: int|
            0 <= x < duplicate_findings(faces).len() ==> #[trigger] reports_a_duplicate(duplicate_findings(faces)[x], faces),
        forall|x: int, y: int|
            0 <= x < y < duplicate_findings(faces).len() ==> (#[trigger] duplicate_findings(faces)[x]).face_ids[1] < (
            #[trigger] duplicate_findings(faces)[y]).face_ids[1],
{
    let f = |i: int| duplicate_entry(faces, i);
    let r = duplicate_findings(faces);
    let idx = crate::quality::lemma_select_indices_positions(faces.len() as int, f);
    assert forall|i: int, j: int|
        0 <= j < i < faces.len() && sorted_face(#[trigger] faces[j]) == sorted_face(#[trigger] faces[i]) implies exists|x: int, k: int|
            0 <= x < duplicate_findings(faces).len() && #[trigger] reports_duplicate(duplicate_findings(faces)[x], faces, k, i) by {
        lemma_first_alike(faces, faces[i], i);
        let k = first_alike(faces, faces[i], i);
        assert(k >= 0);
        lemma_first_alike(faces, faces[i], k);
        assert(f(i) is Some);
        let x = choose|x: int| 0 <= x < idx.len() && idx[x] == i;
        assert(r[x] == f(i)->0);
        assert(reports_duplicate(r[x], faces, k, i));
    }
    assert forall|x: int| 0 <= x < duplicate_findings(faces).len() implies #[trigger] reports_a_duplicate(
        duplicate_findings(faces)[x],
        faces,
    ) by {
        let i = idx[x];
        lemma_first_alike(faces, faces[i], i);
        let k = first_alike(faces, faces[i], i);
        assert(f(i) is Some);
        lemma_first_alike(faces, faces[i], k);
        assert(r[x] == f(i)->0);
        assert(reports_duplicate(r[x], faces, k, i));
    }
    assert forall|x: int, y: int| 0 <= x < y < r.len() implies (#[trigger] r[x]).face_ids[1] < (#[trigger] r[y]).face_ids[1] by {
        assert(r[x] == f(idx[x])->0);
        assert(r[y] == f(idx[y])->0);
        assert(r[x].face_ids[1] == idx[x] as u32);
        assert(r[y].face_ids[1] == idx[y] as u32);
    }
}


/// The finding reports the edge with key `k` as not shared by exactly two
/// faces, naming the faces that use it.
pub open spec fn reports_non_manifold_edge(f: FindingView, faces: Seq<[u32; 3]>, k: u64) -> bool {
    &&& f.rule_id == "mesh/non-manifold"@
    &&& f.face_ids == group_faces(group_of(incidences(faces), k))
    &&& f.metrics[2] == ("faces"@, count(group_of(incidences(faces), k).len() as int))
}

/// The finding reports one of the listed edges used by a number of faces
/// other than two.
pub open spec fn reports_a_non_manifold_edge(f: FindingView, faces: Seq<[u32; 3]>, keys: Seq<u64>) -> bool {
    exists|e: int|
        0 <= e < keys.len() && group_of(incidences(faces), keys[e]).len() != 2 && #[trigger] reports_non_manifold_edge(f, faces, keys[e])
}

/// Every edge of the mesh (listed in increasing order of its vertex pair)
/// that is used by a number of faces other than two is reported with the
/// faces that use it; no other edge is.
pub proof fn law_non_manifold_edges_reported(faces: Seq<[u32; 3]>)
    ensures
        forall|e: int|
            0 <= e < ascending(edge_keys(faces)).len() && #[trigger] group_of(incidences(faces), ascending(edge_keys(faces))[e]).len() != 2
                ==> exists|x: int|
                0 <= x < non_manifold_findings(faces).len() && #[trigger] reports_non_manifold_edge(
                    non_manifold_findings(faces)[x],
                    faces,
                    ascending(edge_keys(faces))[e],
                ),
        forall|x: int|
            0 <= x < non_manifold_findings(faces).len() ==> #[trigger] reports_a_non_manifold_edge(
                non_manifold_findings(faces)[x],
                faces,
                ascending(edge_keys(faces)),
            ),
{
    let keys = ascending(edge_keys(faces));
    let f = |k: u64| non_manifold_entry(faces, k);
    let r = non_manifold_findings(faces);
    let idx = crate::quality::lemma_select_positions(keys, f);
    assert forall|e: int|
        0 <= e < keys.len() && #[trigger] group_of(incidences(faces), keys[e]).len() != 2 implies exists|x: int|
            0 <= x < non_manifold_findings(faces).len() && #[trigger] reports_non_manifold_edge(
                non_manifold_findings(faces)[x],
                faces,
                keys[e],
            ) by {
        assert(f(keys[e]) is Some);
        let x = choose|x: int| 0 <= x < idx.len() && idx[x] == e;
        assert(r[x] == f(keys[e])->0);
        assert(reports_non_manifold_edge(r[x], faces, keys[e]));
    }
    assert forall|x: int| 0 <= x < non_manifold_findings(faces).len() implies #[trigger] reports_a_non_manifold_edge(
        non_manifold_findings(faces)[x],
        faces,
        keys,
    ) by {
        let e = idx[x];
        assert(r[x] == f(keys[e])->0);
        assert(reports_non_manifold_edge(r[x], faces, keys[e]));
    }
}


/// The finding reports the edge with key `k` as run the same way by the two
/// faces that share it.
pub open spec fn reports_inconsistent_edge(f: FindingView, faces: Seq<[u32; 3]>, k: u64) -> bool {
    &&& f.rule_id == "mesh/inconsistent-normals"@
    &&& f.face_ids == seq![group_of(incidences(faces), k)[0].0, group_of(incidences(faces), k)[1].0]
}

/// The finding reports one of the listed edges shared by exactly two faces
/// that run along it in the same direction.
pub open spec fn reports_an_inconsistent_edge(f: FindingView, faces: Seq<[u32; 3]>, keys: Seq<u64>) -> bool {
    exists|e: int|
        0 <= e < keys.len() && group_of(incidences(faces), keys[e]).len() == 2 && group_of(incidences(faces), keys[e])[0].1
            == group_of(incidences(faces), keys[e])[1].1 && #[trigger] reports_inconsistent_edge(f, faces, keys[e])
}

/// Every edge shared by exactly two faces that traverse it in the same
/// direction is reported, naming both faces; no other edge is.
pub proof fn law_inconsistent_edges_reported(faces: Seq<[u32; 3]>)
    ensures
        forall|e: int|
            0 <= e < ascending(edge_keys(faces)).len() && #[trigger] group_of(incidences(faces), ascending(edge_keys(faces))[e]).len() == 2
                && group_of(incidences(faces), ascending(edge_keys(faces))[e])[0].1 == group_of(
                incidences(faces),
                ascending(edge_keys(faces))[e],
            )[1].1 ==> exists|x: int|
                0 <= x < inconsistent_findings(faces).len() && #[trigger] reports_inconsistent_edge(
                    inconsistent_findings(faces)[x],
                    faces,
                    ascending(edge_keys(faces))[e],
                ),
        forall|x: int|
            0 <= x < inconsistent_findings(faces).len() ==> #[trigger] reports_an_inconsistent_edge(
                inconsistent_findings(faces)[x],
                faces,
                ascending(edge_keys(faces)),
            ),
{
    let keys = ascending(edge_keys(faces));
    let f = |k: u64| inconsistent_entry(faces, k);
    let r = inconsistent_findings(faces);
    let idx = crate::quality::lemma_select_positions(keys, f);
    assert forall|e: int|
        0 <= e < keys.len() && #[trigger] group_of(incidences(faces), keys[e]).len() == 2
            && group_of(incidences(faces), keys[e])[0].1 == group_of(incidences(faces), keys[e])[1].1 implies exists|x: int|
            0 <= x < inconsistent_findings(faces).len() && #[trigger] reports_inconsistent_edge(
                inconsistent_findings(faces)[x],
                faces,
                keys[e],
            ) by {
        assert(f(keys[e]) is Some);
        let x = choose|x: int| 0 <= x < idx.len() && idx[x] == e;
        assert(r[x] == f(keys[e])->0);
        assert(reports_inconsistent_edge(r[x], faces, keys[e]));
    }
    assert forall|x: int| 0 <= x < inconsistent_findings(faces).len() implies #[trigger] reports_an_inconsistent_edge(
        inconsistent_findings(faces)[x],
        faces,
        keys,
    ) by {
        let e = idx[x];
        assert(r[x] == f(keys[e])->0);
        assert(reports_inconsistent_edge(r[x], faces, keys[e]));
    }
}


/// A listed boundary edge: one of the mesh's edges (listed in increasing
/// order of its vertex pair) that exactly one face uses, with that face.
pub open spec fn is_boundary_edge_of(faces: Seq<[u32; 3]>, keys: Seq<u64>, e: int, b: BoundaryEdge) -> bool {
    &&& group_of(incidences(faces), keys[e]).len() == 1
    &&& b.edge == ((keys[e] / 0x1_0000_0000) as u32, (keys[e] % 0x1_0000_0000) as u32)
    &&& b.face_id == group_of(incidences(faces), keys[e])[0].0
}

/// The boundary edges are exactly the edges used by one face, each with that
/// face, in increasing order of their vertex pairs.
pub proof fn law_boundary_edges_are_single_face_edges(faces: Seq<[u32; 3]>)
    ensures
        forall|e: int|
            0 <= e < ascending(edge_keys(faces)).len() && #[trigger] group_of(incidences(faces), ascending(edge_keys(faces))[e]).len() == 1
                ==> exists|x: int|
                0 <= x < boundary_edges(faces).len() && #[trigger] is_boundary_edge_of(
                    faces,
                    ascending(edge_keys(faces)),
                    e,
                    boundary_edges(faces)[x],
                ),
        exists|src: Seq<int>|
            #[trigger] src.len() == boundary_edges(faces).len() && (forall|x: int|
                0 <= x < src.len() ==> 0 <= #[trigger] src[x] < ascending(edge_keys(faces)).len() && is_boundary_edge_of(
                    faces,
                    ascending(edge_keys(faces)),
                    src[x],
                    boundary_edges(faces)[x],
                )) && (forall|x: int, y: int| 0 <= x < y < src.len() ==> #[trigger] src[x] < #[trigger] src[y]),
{
    let keys = ascending(edge_keys(faces));
    let f = |k: u64| boundary_entry(faces, k);
    let r = boundary_edges(faces);
    let idx = crate::quality::lemma_select_positions(keys, f);
    assert forall|e: int|
        0 <= e < keys.len() && #[trigger] group_of(incidences(faces), keys[e]).len() == 1 implies exists|x: int|
            0 <= x < boundary_edges(faces).len() && #[trigger] is_boundary_edge_of(faces, keys, e, boundary_edges(faces)[x]) by {
        assert(f(keys[e]) is Some);
        let x = choose|x: int| 0 <= x < idx.len() && idx[x] == e;
        assert(r[x] == f(keys[e])->0);
        assert(is_boundary_edge_of(faces, keys, e, r[x]));
    }
    assert forall|x: int| 0 <= x < idx.len() implies 0 <= #[trigger] idx[x] < keys.len() && is_boundary_edge_of(faces, keys, idx[x], r[x]) by {
        assert(r[x] == f(keys[idx[x]])->0);
    }
}

} // verus!
