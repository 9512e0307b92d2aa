use vstd::prelude::*;
use crate::sort::{ascending, lemma_ascending, sort_distinct, strictly_increasing};
use std::collections::HashMap;

verus! {

broadcast use vstd::std_specs::hash::group_hash_axioms;

/// The three directed edges of a face, in winding order.
pub open spec fn face_edge_seq(f: [u32; 3]) -> Seq<(u32, u32)> {
    seq![(f[0], f[1]), (f[1], f[2]), (f[2], f[0])]
}

/// An edge with its smaller vertex first.
pub open spec fn canonical(e: (u32, u32)) -> (u32, u32) {
    if e.0 < e.1 {
        e
    } else {
        (e.1, e.0)
    }
}

/// The key of an undirected edge: its canonical form packed into 64 bits, so
/// that keys order edges lexicographically.
pub open spec fn edge_key(e: (u32, u32)) -> u64 {
    (canonical(e).0 as int * 0x1_0000_0000 + canonical(e).1 as int) as u64
}

/// The canonical edge a key stands for.
pub open spec fn key_edge(k: u64) -> (u32, u32) {
    ((k / 0x1_0000_0000) as u32, (k % 0x1_0000_0000) as u32)
}

/// Equal keys mean the same undirected edge.
pub proof fn lemma_edge_key_injective(e: (u32, u32), f: (u32, u32))
    ensures
        (edge_key(e) == edge_key(f)) <==> (canonical(e) == canonical(f)),
{
    let c = canonical(e);
    let d = canonical(f);
    let ke = c.0 as int * 0x1_0000_0000 + c.1 as int;
    let kf = d.0 as int * 0x1_0000_0000 + d.1 as int;
    if ke == kf {
        assert(c.0 == d.0 && c.1 == d.1) by (nonlinear_arith)
            requires
                ke == kf,
                ke == c.0 as int * 0x1_0000_0000 + c.1 as int,
                kf == d.0 as int * 0x1_0000_0000 + d.1 as int,
                0 <= c.0 < 0x1_0000_0000, 0 <= c.1 < 0x1_0000_0000,
                0 <= d.0 < 0x1_0000_0000, 0 <= d.1 < 0x1_0000_0000,
        ;
    }
}

/// The directed edges of a face.
pub fn face_edges(face: [u32; 3]) -> (r: [(u32, u32); 3])
    ensures
        r@ == face_edge_seq(face),
{
    let r = [(face[0], face[1]), (face[1], face[2]), (face[2], face[0])];
    proof {
        assert(r@ =~= face_edge_seq(face));
    }
    r
}

/// The edge with its smaller vertex first.
pub fn canonical_edge(edge: (u32, u32)) -> (r: (u32, u32))
    ensures
        r == canonical(edge),
{
    if edge.0 < edge.1 {
        edge
    } else {
        (edge.1, edge.0)
    }
}

fn key_of(edge: (u32, u32)) -> (k: u64)
    ensures
        k == edge_key(edge),
{
    let c = canonical_edge(edge);
    c.0 as u64 * 0x1_0000_0000 + c.1 as u64
}

/// Two faces traverse some undirected edge they share in the same direction.
pub open spec fn same_direction(a: [u32; 3], b: [u32; 3]) -> bool {
    exists|i: int, j: int|
        0 <= i < 3 && 0 <= j < 3 && #[trigger] face_edge_seq(a)[i] == #[trigger] face_edge_seq(b)[j]
}

/// Whether the faces traverse a shared edge in the same direction: winding
/// that disagrees across that edge.
pub fn shared_edge_same_direction(a: [u32; 3], b: [u32; 3]) -> (r: bool)
    ensures
        r == same_direction(a, b),
{
    let ea = face_edges(a);
    let eb = face_edges(b);
    let mut i: usize = 0;
    while i < 3
        invariant
            0 <= i <= 3,
            ea@ == face_edge_seq(a),
            eb@ == face_edge_seq(b),
            forall|p: int, q: int| 0 <= p < i && 0 <= q < 3 ==> face_edge_seq(a)[p] != face_edge_seq(b)[q],
        decreases 3 - i,
    {
        let mut j: usize = 0;
        while j < 3
            invariant
                0 <= i < 3,
                0 <= j <= 3,
                ea@ == face_edge_seq(a),
                eb@ == face_edge_seq(b),
                forall|p: int, q: int| 0 <= p < i && 0 <= q < 3 ==> face_edge_seq(a)[p] != face_edge_seq(b)[q],
                forall|q: int| 0 <= q < j ==> face_edge_seq(a)[i as int] != face_edge_seq(b)[q],
            decreases 3 - j,
        {
            let (p0, p1) = ea[i];
            let (q0, q1) = eb[j];
            if p0 == q0 && p1 == q1 {
                proof {
                    assert(face_edge_seq(a)[i as int] == face_edge_seq(b)[j as int]);
                }
                return true;
            }
            j = j + 1;
        }
        i = i + 1;
    }
    false
}

/// The faces have a vertex index in common.
pub open spec fn share_vertex(a: [u32; 3], b: [u32; 3]) -> bool {
    exists|i: int, j: int| 0 <= i < 3 && 0 <= j < 3 && a[i] == b[j]
}

/// Whether the faces have a vertex index in common.
pub fn faces_share_vertex(a: [u32; 3], b: [u32; 3]) -> (r: bool)
    ensures
        r == share_vertex(a, b),
{
    let r = a[0] == b[0] || a[0] == b[1] || a[0] == b[2] || a[1] == b[0] || a[1] == b[1] || a[1] == b[2]
        || a[2] == b[0] || a[2] == b[1] || a[2] == b[2];
    proof {
        if r {
            if a[0] == b[0] { assert(a[0int] == b[0int]); }
            else if a[0] == b[1] { assert(a[0int] == b[1int]); }
            else if a[0] == b[2] { assert(a[0int] == b[2int]); }
            else if a[1] == b[0] { assert(a[1int] == b[0int]); }
            else if a[1] == b[1] { assert(a[1int] == b[1int]); }
            else if a[1] == b[2] { assert(a[1int] == b[2int]); }
            else if a[2] == b[0] { assert(a[2int] == b[0int]); }
            else if a[2] == b[1] { assert(a[2int] == b[1int]); }
            else { assert(a[2int] == b[2int]); }
        }
    }
    r
}

/// An edge incidence: a face index and one of its directed edges.
pub type Incidence = (u32, (u32, u32));

/// All edge incidences of the faces: three per face, faces in order.
pub open spec fn incidences(faces: Seq<[u32; 3]>) -> Seq<Incidence>
    decreases faces.len(),
{
    if faces.len() == 0 {
        Seq::empty()
    } else {
        let i = (faces.len() - 1) as u32;
        let e = face_edge_seq(faces.last());
        incidences(faces.drop_last()) + seq![(i, e[0]), (i, e[1]), (i, e[2])]
    }
}

/// The incidences of the undirected edge with key `k`, in order.
pub open spec fn group_of(inc: Seq<Incidence>, k: u64) -> Seq<Incidence>
    decreases inc.len(),
{
    if inc.len() == 0 {
        Seq::empty()
    } else {
        let g = group_of(inc.drop_last(), k);
        if edge_key(inc.last().1) == k {
            g.push(inc.last())
        } else {
            g
        }
    }
}

/// The keys of the undirected edges of the faces.
pub open spec fn edge_keys(faces: Seq<[u32; 3]>) -> Set<u64> {
    incidences(faces).map_values(|x: Incidence| edge_key(x.1)).to_set()
}

/// The face indices of a group.
pub open spec fn group_faces(g: Seq<Incidence>) -> Seq<u32> {
    g.map_values(|x: Incidence| x.0)
}

/// The undirected edges of a mesh, grouped: `keys` lists the edge keys in
/// increasing order and `groups` holds each edge's incidences.
pub struct EdgeTable {
    pub keys: Vec<u64>,
    pub groups: HashMap<u64, Vec<Incidence>>,
}

impl EdgeTable {
    /// The table describes the edges of `faces`.
    pub open spec fn describes(&self, faces: Seq<[u32; 3]>) -> bool {
        &&& self.keys@ == ascending(edge_keys(faces))
        &&& self.keys@.to_set() == edge_keys(faces)
        &&& strictly_increasing(self.keys@)
        &&& forall|i: int|
            0 <= i < self.keys@.len() ==> #[trigger] self.groups@.contains_key(self.keys@[i])
                && self.groups@[self.keys@[i]]@ == group_of(incidences(faces), self.keys@[i])
    }
}

proof fn lemma_incidences_len(faces: Seq<[u32; 3]>)
    ensures
        incidences(faces).len() == 3 * faces.len(),
    decreases faces.len(),
{
    if faces.len() > 0 {
        lemma_incidences_len(faces.drop_last());
    }
}

/// The incidences have three entries per face; the last face contributes the last three.
pub proof fn lemma_incidences_unfold(faces: Seq<[u32; 3]>)
    ensures
        incidences(faces).len() == 3 * faces.len(),
        faces.len() > 0 ==> incidences(faces) == incidences(faces.drop_last()) + seq![
            ((faces.len() - 1) as u32, face_edge_seq(faces.last())[0]),
            ((faces.len() - 1) as u32, face_edge_seq(faces.last())[1]),
            ((faces.len() - 1) as u32, face_edge_seq(faces.last())[2]),
        ],
{
    lemma_incidences_len(faces);
}

proof fn lemma_incidences_prefix(faces: Seq<[u32; 3]>, n: int)
    requires
        0 <= n <= faces.len(),
    ensures
        incidences(faces.take(n)) == incidences(faces).take(3 * n),
    decreases faces.len() - n,
{
    lemma_incidences_len(faces);
    lemma_incidences_len(faces.take(n));
    if n < faces.len() {
        lemma_incidences_prefix(faces, n + 1);
        assert(faces.take(n + 1).drop_last() =~= faces.take(n));
        lemma_incidences_len(faces.take(n + 1));
        assert(incidences(faces.take(n)) =~= incidences(faces.take(n + 1)).take(3 * n));
        assert(incidences(faces).take(3 * n) =~= incidences(faces).take(3 * n + 3).take(3 * n));
    } else {
        assert(faces.take(n) =~= faces);
        assert(incidences(faces).take(3 * n) =~= incidences(faces));
    }
}

/// The incidences of the faces, built in order.
fn incidence_list(faces: &Vec<[u32; 3]>) -> (r: Vec<Incidence>)
    requires
        faces@.len() <= u32::MAX,
    ensures
        r@ == incidences(faces@),
{
    let mut r: Vec<Incidence> = Vec::new();
    let mut i: usize = 0;
    while i < faces.len()
        invariant
            0 <= i <= faces@.len() <= u32::MAX,
            r@ == incidences(faces@.take(i as int)),
        decreases faces@.len() - i,
    {
        let f = faces[i];
        let e = face_edges(f);
        let id = i as u32;
        r.push((id, e[0]));
        r.push((id, e[1]));
        r.push((id, e[2]));
        proof {
            let t = faces@.take(i + 1);
            assert(t.drop_last() =~= faces@.take(i as int));
            assert(t.last() == f);
            assert(r@ =~= incidences(t));
        }
        i = i + 1;
    }
    proof {
        assert(faces@.take(faces@.len() as int) =~= faces@);
    }
    r
}

/// Groups the edge incidences of the faces by undirected edge.
pub fn edge_table(faces: &Vec<[u32; 3]>) -> (t: EdgeTable)
    requires
        faces@.len() <= u32::MAX,
    ensures
        t.describes(faces@),
{
    let inc = incidence_list(faces);
    let ghost all = inc@;
    let mut groups: HashMap<u64, Vec<Incidence>> = HashMap::new();
    let mut keys: Vec<u64> = Vec::new();
    let mut j: usize = 0;
    proof {
        assert(all.take(0) =~= Seq::<Incidence>::empty());
        assert(all.take(0).map_values(|x: Incidence| edge_key(x.1)).to_set() =~= Set::<u64>::empty());
    }
    while j < inc.len()
        invariant
            all == inc@,
            0 <= j <= all.len(),
            keys@.no_duplicates(),
            keys@.to_set() == all.take(j as int).map_values(|x: Incidence| edge_key(x.1)).to_set(),
            groups@.dom() == keys@.to_set(),
            forall|k: u64| #[trigger] groups@.contains_key(k) ==> groups@[k]@ == group_of(all.take(j as int), k),
        decreases all.len() - j,
    {
        let x = inc[j];
        let k = key_of(x.1);
        let ghost pre = all.take(j as int);
        let ghost pre1 = all.take(j + 1);
        proof {
            assert(pre1.drop_last() =~= pre);
            assert(pre1.last() == x);
            assert(pre1.map_values(|x: Incidence| edge_key(x.1)) =~= pre.map_values(|x: Incidence| edge_key(x.1)).push(k));
            pre.map_values(|x: Incidence| edge_key(x.1)).lemma_push_to_set_commute(k);
        }
        match groups.remove(&k) {
            Some(mut g) => {
                g.push(x);
                groups.insert(k, g);
                proof {
                    assert(keys@.to_set().contains(k));
                    assert(keys@.to_set() =~= keys@.to_set().insert(k));
                }
            },
            None => {
                let mut g: Vec<Incidence> = Vec::new();
                g.push(x);
                groups.insert(k, g);
                let ghost old_keys = keys@;
                keys.push(k);
                proof {
                    assert(!old_keys.to_set().contains(k));
                    old_keys.lemma_push_to_set_commute(k);
                    assert(keys@.no_duplicates()) by {
                        assert forall|a: int, b: int| 0 <= a < b < keys@.len() implies keys@[a] != keys@[b] by {
                            if b == keys@.len() - 1 {
                                assert(old_keys.to_set().contains(old_keys[a]));
                            }
                        }
                    }
                    assert(g@ =~= group_of(pre1, k)) by {
                        assert(group_of(pre, k) =~= Seq::<Incidence>::empty()) by {
                            lemma_group_absent(pre, k);
                        }
                    }
                }
            },
        }
        proof {
            assert(groups@.dom() =~= keys@.to_set());
            assert forall|k2: u64| #[trigger] groups@.contains_key(k2) implies groups@[k2]@ == group_of(pre1, k2) by {}
        }
        j = j + 1;
    }
    proof {
        assert(all.take(all.len() as int) =~= all);
    }
    let sorted = sort_distinct(keys);
    proof {
        lemma_ascending(sorted@);
        assert forall|i: int| 0 <= i < sorted@.len() implies #[trigger] groups@.contains_key(sorted@[i])
            && groups@[sorted@[i]]@ == group_of(incidences(faces@), sorted@[i]) by {
            assert(sorted@.to_set().contains(sorted@[i]));
        }
    }
    EdgeTable { keys: sorted, groups }
}

proof fn lemma_group_absent(inc: Seq<Incidence>, k: u64)
    requires
        !inc.map_values(|x: Incidence| edge_key(x.1)).to_set().contains(k),
    ensures
        group_of(inc, k) == Seq::<Incidence>::empty(),
    decreases inc.len(),
{
    if inc.len() > 0 {
        let m = inc.map_values(|x: Incidence| edge_key(x.1));
        assert(inc.drop_last().map_values(|x: Incidence| edge_key(x.1)) =~= m.drop_last());
        if m.drop_last().to_set().contains(k) {
            let p = choose|p: int| 0 <= p < m.drop_last().len() && m.drop_last()[p] == k;
            assert(m[p] == k);
        }
        assert(m[inc.len() - 1] == edge_key(inc.last().1));
        lemma_group_absent(inc.drop_last(), k);
    }
}


/// The directed edges of a face run from each corner to the next, the last
/// back to the first.
pub proof fn law_face_edges_follow_winding(f: [u32; 3], i: int)
    requires
        0 <= i < 3,
    ensures
        face_edge_seq(f).len() == 3,
        face_edge_seq(f)[i] == (f[i], f[(i + 1) % 3]),
{
}

/// The canonical form of an edge has the same two endpoints, the smaller
/// first; an edge and its reverse share canonical form and key, and the key
/// gives the canonical form back.
pub proof fn law_edge_keys_name_undirected_edges(e: (u32, u32))
    ensures
        canonical(e).0 <= canonical(e).1,
        (canonical(e) == e) || (canonical(e) == (e.1, e.0)),
        canonical(e) == canonical((e.1, e.0)),
        edge_key(e) == edge_key((e.1, e.0)),
        key_edge(edge_key(e)) == canonical(e),
{
    let c = canonical(e);
    let k = c.0 as int * 0x1_0000_0000 + c.1 as int;
    assert(k / 0x1_0000_0000 == c.0 && k % 0x1_0000_0000 == c.1) by (nonlinear_arith)
        requires
            k == c.0 as int * 0x1_0000_0000 + c.1 as int,
            0 <= c.0 < 0x1_0000_0000,
            0 <= c.1 < 0x1_0000_0000,
    ;
    assert(0 <= k < 0x1_0000_0000_0000_0000) by (nonlinear_arith)
        requires
            k == c.0 as int * 0x1_0000_0000 + c.1 as int,
            0 <= c.0 < 0x1_0000_0000,
            0 <= c.1 < 0x1_0000_0000,
    ;
}

} // verus!
