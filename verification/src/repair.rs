use vstd::prelude::*;
use crate::graph::{lemma_no_dup_len_bound, listed, lists_relation, lists_view};
use crate::shells::{adjacency_lists, face_adjacency, face_relation, faces_adjacent, lemma_primary_range, primary_among, primary_shell_index, shell_lens};
use crate::ieee::{f32_le, f32_less_eq};
use crate::quality::{lemma_select_indices_positions, lemma_select_nothing};
use crate::sort::ascending;
use crate::topology::{edge_keys, group_of, incidences, Incidence, canonical, edge_key, face_edge_seq, lemma_edge_key_injective, same_direction, shared_edge_same_direction};
use crate::checks::{count, inconsistent_entry, inconsistent_findings, degenerate_entry, degenerate_findings, first_alike, lemma_first_alike, repeats_vertex, select_indices, sorted_face, duplicate_findings, face_key, lemma_face_key, sort_face, key_of_face};
use crate::ieee::{f32_lt, f32_less, F32_EPSILON_BITS, F32_ZERO_BITS};
use crate::model::{fixes_view, metric, Fix, FixView, Mesh, Metric, MetricValue};
use crate::text::{decimal, decimal_string};
use std::collections::HashSet;

verus! {

/// The face wound the other way: its second and third corners exchanged.
pub open spec fn rewound(f: [u32; 3]) -> [u32; 3] {
    [f[0], f[2], f[1]]
}

/// The face as it stands after an optional rewinding.
pub open spec fn winding(f: [u32; 3], flip: bool) -> [u32; 3] {
    if flip {
        rewound(f)
    } else {
        f
    }
}

/// No two distinct faces traverse a shared edge in the same direction.
pub open spec fn consistently_wound(faces: Seq<[u32; 3]>) -> bool {
    forall|a: int, b: int|
        0 <= a < faces.len() && 0 <= b < faces.len() && a != b ==> !#[trigger] same_direction(
            faces[a],
            #[trigger] faces[b],
        )
}

/// Face `i` was reached from face `parent[i]` (or is a starting face, with
/// parent -1, and keeps its winding); a reached face is rewound exactly when
/// it ran along a shared edge in the same direction as its parent's final
/// winding. Parents are reached earlier (smaller rank).
pub open spec fn oriented_link(
    orig: Seq<[u32; 3]>,
    cur: Seq<[u32; 3]>,
    flags: Seq<bool>,
    parent: Seq<int>,
    rank: Seq<int>,
    i: int,
) -> bool {
    &&& parent[i] == -1 ==> !flags[i]
    &&& parent[i] != -1 ==> {
        &&& 0 <= parent[i] < orig.len()
        &&& faces_adjacent(orig, parent[i] as usize, i as usize)
        &&& rank[parent[i]] < rank[i]
        &&& flags[i] == same_direction(cur[parent[i]], orig[i])
    }
}

/// The outcome of a local reorientation: every face is reached along a
/// forest of adjacent faces and wound to agree with the face it came from.
pub open spec fn oriented_forest(
    orig: Seq<[u32; 3]>,
    cur: Seq<[u32; 3]>,
    flags: Seq<bool>,
    parent: Seq<int>,
    rank: Seq<int>,
) -> bool {
    &&& parent.len() == orig.len()
    &&& rank.len() == orig.len()
    &&& forall|i: int| 0 <= i < orig.len() ==> #[trigger] oriented_link(orig, cur, flags, parent, rank, i)
}

/// Every face belongs to the tree of the starting face `root[i]`, the lowest
/// face of its tree; a face and the face it was reached from share a tree,
/// and so do any two adjacent faces: each tree spans a whole shell.
pub open spec fn spanning_trees(orig: Seq<[u32; 3]>, parent: Seq<int>, rank: Seq<int>, root: Seq<int>) -> bool {
    let n = orig.len();
    &&& root.len() == n
    &&& forall|i: int| 0 <= i < n ==> 0 <= #[trigger] rank[i]
    &&& forall|i: int| 0 <= i < n ==> 0 <= #[trigger] root[i] <= i && parent[root[i]] == -1
    &&& forall|i: int| 0 <= i < n && #[trigger] parent[i] == -1 ==> root[i] == i
    &&& forall|i: int| 0 <= i < n && #[trigger] parent[i] != -1 ==> root[parent[i]] == root[i]
    &&& forall|a: usize, b: usize| #[trigger] faces_adjacent(orig, a, b) ==> root[a as int] == root[b as int]
}

spec fn orient_state(
    orig: Seq<[u32; 3]>,
    cur: Seq<[u32; 3]>,
    flags: Seq<bool>,
    visited: Seq<bool>,
    parent: Seq<int>,
    rank: Seq<int>,
    root: Seq<int>,
    queue: Seq<usize>,
    h: int,
) -> bool {
    let n = orig.len();
    &&& root.len() == n
    &&& 0 <= h <= queue.len()
    &&& forall|i: int|
        0 <= i < n && #[trigger] visited[i] ==> 0 <= root[i] <= i && visited[root[i]] && parent[root[i]] == -1 && (
        parent[i] == -1 ==> root[i] == i) && (parent[i] != -1 ==> root[parent[i]] == root[i]) && queue[rank[i]] == i
    &&& forall|k: int, b: usize|
        0 <= k < h && #[trigger] faces_adjacent(orig, queue[k], b) ==> visited[b as int] && root[b as int] == root[
            queue[k] as int]
    &&& cur.len() == n
    &&& flags.len() == n
    &&& visited.len() == n
    &&& parent.len() == n
    &&& rank.len() == n
    &&& forall|i: int| 0 <= i < n ==> #[trigger] cur[i] == winding(orig[i], flags[i])
    &&& forall|i: int| 0 <= i < n && !#[trigger] visited[i] ==> !flags[i]
    &&& forall|i: int|
        0 <= i < n && #[trigger] visited[i] ==> oriented_link(orig, cur, flags, parent, rank, i) && (
        parent[i] != -1 ==> visited[parent[i]]) && 0 <= rank[i] < queue.len()
    &&& consistently_wound(orig) ==> forall|i: int| 0 <= i < n ==> !#[trigger] flags[i]
    &&& queue.no_duplicates()
    &&& forall|k: int| 0 <= k < queue.len() ==> (#[trigger] queue[k]) < n && visited[queue[k] as int]
}

/// A state of the breadth-first reorientation: the faces as wound so far,
/// which faces were rewound, which were reached, and the queue of reached
/// faces in the order they were reached.
pub type OrientRun = (Seq<[u32; 3]>, Seq<bool>, Seq<bool>, Seq<usize>);

/// Reaching face `nb` from face `f`: a face not yet reached is rewound when it
/// runs along the shared edge in the same direction as `f` now does, marked
/// reached, and queued; a face already reached is left as it is.
pub open spec fn reach_face(st: OrientRun, f: usize, nb: usize) -> OrientRun {
    if st.2[nb as int] {
        st
    } else {
        let sd = same_direction(st.0[f as int], st.0[nb as int]);
        (
            if sd { st.0.update(nb as int, rewound(st.0[nb as int])) } else { st.0 },
            if sd { st.1.update(nb as int, true) } else { st.1 },
            st.2.update(nb as int, true),
            st.3.push(nb),
        )
    }
}

/// Reaching, from face `f`, its neighbors `nbrs[k..]` in list order.
pub open spec fn reach_neighbors(st: OrientRun, f: usize, nbrs: Seq<usize>, k: int) -> OrientRun
    decreases nbrs.len() - k,
{
    if 0 <= k < nbrs.len() {
        reach_neighbors(reach_face(st, f, nbrs[k]), f, nbrs, k + 1)
    } else {
        st
    }
}

/// Taking the queued faces from position `h` on, each in turn reaching its
/// neighbors, until the queue is exhausted.
pub open spec fn drain_queue(adj: Seq<Seq<usize>>, st: OrientRun, h: int) -> OrientRun
    decreases adj.len() - h,
{
    if 0 <= h < st.3.len() && h < adj.len() {
        let f = st.3[h];
        drain_queue(adj, reach_neighbors(st, f, adj[f as int], 0), h + 1)
    } else {
        st
    }
}

/// Starting a new tree at every face from `start` on that is not reached yet,
/// lowest face first, and draining the queue from it.
pub open spec fn start_trees(adj: Seq<Seq<usize>>, st: OrientRun, start: int) -> OrientRun
    decreases adj.len() - start,
{
    if 0 <= start < adj.len() {
        if st.2[start] {
            start_trees(adj, st, start + 1)
        } else {
            let seeded = (st.0, st.1, st.2.update(start, true), st.3.push(start as usize));
            start_trees(adj, drain_queue(adj, seeded, st.3.len() as int), start + 1)
        }
    } else {
        st
    }
}

/// The breadth-first reorientation of `faces`, over the neighbor lists of
/// `adjacency_lists`: nothing reached or rewound at first, trees started from
/// face 0 upward.
pub open spec fn local_orientation(faces: Seq<[u32; 3]>) -> OrientRun {
    let n = faces.len();
    start_trees(
        adjacency_lists(faces),
        (faces, Seq::new(n, |i: int| false), Seq::new(n, |i: int| false), Seq::empty()),
        0,
    )
}

/// Rewinds faces so that neighbors agree: faces are visited breadth first,
/// shell by shell from the lowest unvisited face, and each newly reached face
/// is rewound when it traverses the shared edge in the same direction as the
/// face it was reached from. Returns, per face, whether it was rewound.
pub fn orient_faces_locally(faces: &mut Vec<[u32; 3]>) -> (flipped: Vec<bool>)
    requires
        old(faces)@.len() <= u32::MAX,
    ensures
        final(faces)@.len() == old(faces)@.len(),
        flipped@.len() == old(faces)@.len(),
        forall|i: int|
            0 <= i < flipped@.len() ==> #[trigger] final(faces)@[i] == winding(old(faces)@[i], flipped@[i]),
        exists|parent: Seq<int>, rank: Seq<int>, root: Seq<int>|
            oriented_forest(old(faces)@, final(faces)@, flipped@, parent, rank) && spanning_trees(
                old(faces)@,
                parent,
                rank,
                root,
            ),
        consistently_wound(old(faces)@) ==> forall|i: int| 0 <= i < flipped@.len() ==> !#[trigger] flipped@[i],
        final(faces)@ == local_orientation(old(faces)@).0,
        flipped@ == local_orientation(old(faces)@).1,
{
    let ghost orig = faces@;
    let adj = face_adjacency(faces);
    let n = faces.len();
    let mut visited: Vec<bool> = Vec::new();
    let mut flags: Vec<bool> = Vec::new();
    let mut i: usize = 0;
    while i < n
        invariant
            0 <= i <= n,
            visited@.len() == i,
            flags@.len() == i,
            forall|v: int| 0 <= v < i ==> !visited@[v] && !flags@[v],
        decreases n - i,
    {
        visited.push(false);
        flags.push(false);
        i = i + 1;
    }
    let ghost mut parent: Seq<int> = Seq::new(n as nat, |v: int| -1);
    let ghost mut rank: Seq<int> = Seq::new(n as nat, |v: int| 0);
    let ghost mut root: Seq<int> = Seq::new(n as nat, |v: int| 0);
    let mut queue: Vec<usize> = Vec::new();
    let mut h: usize = 0;
    proof {
        assert forall|v: int| 0 <= v < n implies #[trigger] faces@[v] == winding(orig[v], flags@[v]) by {}
        assert(flags@ =~= Seq::new(n as nat, |i: int| false));
        assert(visited@ =~= Seq::new(n as nat, |i: int| false));
        assert(queue@ =~= Seq::<usize>::empty());
    }
    let mut start: usize = 0;
    while start < n
        invariant
            n == orig.len(),
            n <= u32::MAX,
            adj@.len() == n,
            lists_relation(lists_view(adj@), face_relation(orig)),
            orient_state(orig, faces@, flags@, visited@, parent, rank, root, queue@, h as int),
            0 <= start <= n,
            h == queue@.len(),
            forall|v: int| 0 <= v < start ==> #[trigger] visited@[v],
            lists_view(adj@) == adjacency_lists(orig),
            start_trees(adjacency_lists(orig), (faces@, flags@, visited@, queue@), start as int) == local_orientation(orig),
        decreases n - start,
    {
        let ghost s0: OrientRun = (faces@, flags@, visited@, queue@);
        if !visited[start] {
            let ghost vis0 = visited@;
            let ghost q0 = queue@;
            let ghost parent0 = parent;
            let ghost rank0 = rank;
            let ghost root0 = root;
            visited.set(start, true);
            queue.push(start);
            proof {
                assert((faces@, flags@, visited@, queue@) == (s0.0, s0.1, s0.2.update(start as int, true), s0.3.push(start)));
                parent = parent.update(start as int, -1);
                rank = rank.update(start as int, queue@.len() - 1);
                root = root.update(start as int, start as int);
                assert forall|i: int|
                    0 <= i < n && #[trigger] visited@[i] implies 0 <= root[i] <= i && visited@[root[i]] && parent[root[i]] == -1 && (
                    parent[i] == -1 ==> root[i] == i) && (parent[i] != -1 ==> root[parent[i]] == root[i]) && queue@[rank[i]] == i by {
                    if i != start {
                        assert(vis0[i]);
                        assert(root0[i] != start);
                        if parent0[i] != -1 {
                            assert(vis0[parent0[i]]);
                        }
                        assert(q0[rank0[i]] == i);
                    }
                }
                assert forall|k: int, b: usize|
                    0 <= k < h && #[trigger] faces_adjacent(orig, queue@[k], b) implies visited@[b as int] && root[b as int] == root[
                        queue@[k] as int] by {
                    assert(queue@[k] == q0[k]);
                    assert(vis0[b as int]);
                    assert(vis0[q0[k] as int]);
                }
            }
            proof {
                let q = queue@;
                assert(q.no_duplicates()) by {
                    assert forall|a: int, b: int| 0 <= a < b < q.len() implies q[a] != q[b] by {
                        if b == q.len() - 1 {
                            assert(visited@[q[a] as int]);
                        }
                    }
                }
            }
            while h < queue.len()
                invariant
                    n == orig.len(),
                    n <= u32::MAX,
                    adj@.len() == n,
                    lists_relation(lists_view(adj@), face_relation(orig)),
                    orient_state(orig, faces@, flags@, visited@, parent, rank, root, queue@, h as int),
                    0 <= start < n,
                    0 <= h <= queue@.len(),
                    forall|v: int| 0 <= v <= start ==> #[trigger] visited@[v],
                    forall|k: int| h <= k < queue@.len() ==> root[(#[trigger] queue@[k]) as int] == start,
                    lists_view(adj@) == adjacency_lists(orig),
                    start_trees(
                        adjacency_lists(orig),
                        drain_queue(adjacency_lists(orig), (faces@, flags@, visited@, queue@), h as int),
                        start + 1,
                    ) == local_orientation(orig),
                decreases n - h,
            {
                let f = queue[h];
                let nbrs = &adj[f];
                proof {
                    lemma_no_dup_len_bound(queue@, n as int);
                    assert(nbrs@ == lists_view(adj@)[f as int]);
                    assert(nbrs@ == adjacency_lists(orig)[f as int]);
                }
                let mut k: usize = 0;
                while k < nbrs.len()
                    invariant
                        n == orig.len(),
                        n <= u32::MAX,
                        adj@.len() == n,
                        lists_relation(lists_view(adj@), face_relation(orig)),
                        orient_state(orig, faces@, flags@, visited@, parent, rank, root, queue@, h as int),
                        0 <= start < n,
                        0 <= h < queue@.len(),
                        f == queue@[h as int],
                        nbrs@ == lists_view(adj@)[f as int],
                        0 <= k <= nbrs@.len(),
                        forall|v: int| 0 <= v <= start ==> #[trigger] visited@[v],
                        forall|kk: int| h <= kk < queue@.len() ==> root[(#[trigger] queue@[kk]) as int] == start,
                        forall|j: int| 0 <= j < k ==> visited@[(#[trigger] nbrs@[j]) as int] && root[nbrs@[j] as int] == root[f as int],
                        lists_view(adj@) == adjacency_lists(orig),
                        start_trees(
                            adjacency_lists(orig),
                            drain_queue(
                                adjacency_lists(orig),
                                reach_neighbors((faces@, flags@, visited@, queue@), f, nbrs@, k as int),
                                h + 1,
                            ),
                            start + 1,
                        ) == local_orientation(orig),
                    decreases nbrs@.len() - k,
                {
                    let nb = nbrs[k];
                    let ghost st0: OrientRun = (faces@, flags@, visited@, queue@);
                    proof {
                        assert(lists_view(adj@)[f as int].contains(nb));
                        assert(listed(lists_view(adj@), f, nb));
                        assert(faces_adjacent(orig, f, nb));
                    }
                    if !visited[nb] {
                        let ghost cur0 = faces@;
                        let ghost flags0 = flags@;
                        let ghost vis0 = visited@;
                        let ghost parent0 = parent;
                        let ghost rank0 = rank;
                        let ghost root0 = root;
                        let ghost q0 = queue@;
                        let sd = shared_edge_same_direction(faces[f], faces[nb]);
                        if sd {
                            let g = faces[nb];
                            faces.set(nb, [g[0], g[2], g[1]]);
                            flags.set(nb, true);
                        }
                        visited.set(nb, true);
                        queue.push(nb);
                        proof {
                            parent = parent.update(nb as int, f as int);
                            rank = rank.update(nb as int, q0.len() as int);
                            root = root.update(nb as int, root0[f as int]);
                            assert(visited@[f as int]);
                            assert(vis0[f as int]);
                            assert(vis0[root0[f as int]]);
                            assert(root0[f as int] != nb);
                            assert(root0[f as int] == start);
                            assert(!vis0[nb as int]);
                            assert forall|i: int|
                                0 <= i < n && #[trigger] visited@[i] implies 0 <= root[i] <= i && visited@[root[i]] && parent[root[i]] == -1 && (
                                parent[i] == -1 ==> root[i] == i) && (parent[i] != -1 ==> root[parent[i]] == root[i]) && queue@[rank[i]] == i by {
                                if i != nb {
                                    assert(vis0[i]);
                                    assert(root0[i] != nb);
                                    if parent0[i] != -1 {
                                        assert(vis0[parent0[i]]);
                                        assert(parent0[i] != nb);
                                    }
                                    assert(q0[rank0[i]] == i);
                                }
                            }
                            assert forall|kk: int, b: usize|
                                0 <= kk < h && #[trigger] faces_adjacent(orig, queue@[kk], b) implies visited@[b as int] && root[b as int] == root[
                                    queue@[kk] as int] by {
                                assert(queue@[kk] == q0[kk]);
                                assert(faces_adjacent(orig, q0[kk], b));
                                assert(vis0[b as int]);
                                assert(vis0[q0[kk] as int]);
                            }
                            assert forall|kk: int| h <= kk < queue@.len() implies root[(#[trigger] queue@[kk]) as int] == start by {
                                if kk < q0.len() {
                                    assert(queue@[kk] == q0[kk]);
                                    assert(vis0[q0[kk] as int]);
                                }
                            }
                            assert forall|j: int| 0 <= j < k implies visited@[(#[trigger] nbrs@[j]) as int] && root[nbrs@[j] as int] == root[f as int] by {
                                assert(lists_view(adj@)[f as int].contains(nbrs@[j]));
                                assert(listed(lists_view(adj@), f, nbrs@[j]));
                                assert(nbrs@[j] < n);
                                assert(vis0[nbrs@[j] as int]);
                                assert(nbrs@[j] != nb);
                                assert(root[nbrs@[j] as int] == root0[nbrs@[j] as int]);
                                assert(root[f as int] == root0[f as int]);
                            }
                            assert(f != nb);
                            assert(cur0[nb as int] == orig[nb as int]);
                            assert(faces@[f as int] == cur0[f as int]);
                            assert(flags@[nb as int] == same_direction(faces@[f as int], orig[nb as int]));
                            assert forall|i: int| 0 <= i < n implies #[trigger] faces@[i] == winding(orig[i], flags@[i]) by {
                                if i != nb {
                                    assert(faces@[i] == cur0[i]);
                                }
                            }
                            assert forall|i: int| 0 <= i < n && #[trigger] visited@[i] implies oriented_link(orig, faces@, flags@, parent, rank, i) && (
                                parent[i] != -1 ==> visited@[parent[i]]) && 0 <= rank[i] < queue@.len() by {
                                if i != nb {
                                    assert(vis0[i]);
                                    assert(oriented_link(orig, cur0, flags0, parent0, rank0, i));
                                    if parent0[i] != -1 {
                                        assert(vis0[parent0[i]]);
                                        assert(parent0[i] != nb);
                                        assert(faces@[parent0[i]] == cur0[parent0[i]]);
                                    }
                                }
                            }
                            if consistently_wound(orig) {
                                assert(!sd) by {
                                    assert(cur0[f as int] == orig[f as int]);
                                    assert(!same_direction(orig[f as int], orig[nb as int]));
                                }
                            }
                            assert(queue@.no_duplicates()) by {
                                let q = queue@;
                                assert forall|a: int, b: int| 0 <= a < b < q.len() implies q[a] != q[b] by {
                                    if b == q.len() - 1 {
                                        assert(vis0[q0[a] as int]);
                                    } else {
                                        assert(q0[a] != q0[b]);
                                    }
                                }
                            }
                            assert forall|kk: int| 0 <= kk < queue@.len() implies (#[trigger] queue@[kk]) < n && visited@[queue@[kk] as int] by {
                                if kk < q0.len() {
                                    assert(queue@[kk] == q0[kk]);
                                }
                            }
                        }
                    }
                    proof {
                        assert(nbrs@[k as int] == nb);
                        assert((faces@, flags@, visited@, queue@) == reach_face(st0, f, nb)) by {
                            if !st0.2[nb as int] {
                                assert(faces@ =~= reach_face(st0, f, nb).0);
                                assert(flags@ =~= reach_face(st0, f, nb).1);
                                assert(visited@ =~= reach_face(st0, f, nb).2);
                                assert(queue@ =~= reach_face(st0, f, nb).3);
                            }
                        }
                        assert(visited@[nb as int]);
                        if root[nb as int] != root[f as int] {
                            let r = rank[nb as int];
                            assert(queue@[r] == nb);
                            if r < h {
                                lemma_adjacent_symmetric(orig, f, nb);
                                assert(faces_adjacent(orig, queue@[r], f));
                            } else {
                                assert(root[queue@[r] as int] == start);
                                assert(root[queue@[h as int] as int] == start);
                            }
                        }
                        assert(nbrs@[k as int] == nb);
                    }
                    k = k + 1;
                }
                proof {
                    assert forall|kk: int, b: usize|
                        0 <= kk < h + 1 && #[trigger] faces_adjacent(orig, queue@[kk], b) implies visited@[b as int] && root[b as int] == root[
                            queue@[kk] as int] by {
                        if kk == h {
                            assert(listed(lists_view(adj@), f, b));
                            let j = choose|j: int| 0 <= j < nbrs@.len() && nbrs@[j] == b;
                            assert(visited@[nbrs@[j] as int]);
                        }
                    }
                }
                h = h + 1;
            }
        }
        start = start + 1;
    }
    proof {
        assert forall|i: int| 0 <= i < orig.len() implies #[trigger] oriented_link(orig, faces@, flags@, parent, rank, i) by {
            assert(visited@[i]);
        }
        assert(oriented_forest(orig, faces@, flags@, parent, rank));
        assert forall|a: usize, b: usize| #[trigger] faces_adjacent(orig, a, b) implies root[a as int] == root[b as int] by {
            assert(visited@[a as int]);
            let r = rank[a as int];
            assert(queue@[r] == a);
            assert(faces_adjacent(orig, queue@[r], b));
        }
        assert forall|i: int| 0 <= i < n implies 0 <= #[trigger] rank[i] by {
            assert(visited@[i]);
        }
        assert forall|i: int| 0 <= i < n implies 0 <= #[trigger] root[i] <= i && parent[root[i]] == -1 by {
            assert(visited@[i]);
        }
        assert forall|i: int| 0 <= i < n && #[trigger] parent[i] == -1 implies root[i] == i by {
            assert(visited@[i]);
        }
        assert forall|i: int| 0 <= i < n && #[trigger] parent[i] != -1 implies root[parent[i]] == root[i] by {
            assert(visited@[i]);
        }
        assert(spanning_trees(orig, parent, rank, root));
    }
    flags
}

/// No face repeats a vertex.
pub open spec fn simple_faces(faces: Seq<[u32; 3]>) -> bool {
    forall|i: int| 0 <= i < faces.len() ==> !repeats_vertex(#[trigger] faces[i])
}

/// Two distinct faces share at most one undirected edge, each of them once.
pub open spec fn single_shared_edges(faces: Seq<[u32; 3]>) -> bool {
    forall|a: int, b: int, i1: int, j1: int, i2: int, j2: int|
        0 <= a < faces.len() && 0 <= b < faces.len() && a != b && 0 <= i1 < 3 && 0 <= j1 < 3 && 0 <= i2 < 3 && 0 <= j2
            < 3 && #[trigger] edge_key(face_edge_seq(faces[a])[i1]) == #[trigger] edge_key(face_edge_seq(faces[b])[j1])
            && #[trigger] edge_key(face_edge_seq(faces[a])[i2]) == #[trigger] edge_key(face_edge_seq(faces[b])[j2]) ==> i1
            == i2 && j1 == j2
}

/// The faces with each rewound where `g` says so.
pub open spec fn wound_by(faces: Seq<[u32; 3]>, g: Seq<bool>) -> Seq<[u32; 3]> {
    Seq::new(faces.len(), |i: int| winding(faces[i], g[i]))
}

spec fn reversed(e: (u32, u32)) -> (u32, u32) {
    (e.1, e.0)
}

spec fn oriented(e: (u32, u32), flip: bool) -> (u32, u32) {
    if flip {
        reversed(e)
    } else {
        e
    }
}

proof fn lemma_winding_edges(f: [u32; 3], x: bool)
    ensures
        forall|k: int|
            0 <= k < 3 ==> #[trigger] face_edge_seq(winding(f, x))[k] == if x {
                reversed(face_edge_seq(f)[2 - k])
            } else {
                face_edge_seq(f)[k]
            },
{
}

/// Rewinding either of two faces that share exactly one edge toggles
/// whether they run along it in the same direction.
proof fn lemma_rewinding_toggles(a: [u32; 3], b: [u32; 3], x: bool, y: bool, i0: int, j0: int)
    requires
        !repeats_vertex(a),
        !repeats_vertex(b),
        0 <= i0 < 3,
        0 <= j0 < 3,
        edge_key(face_edge_seq(a)[i0]) == edge_key(face_edge_seq(b)[j0]),
        forall|i: int, j: int|
            0 <= i < 3 && 0 <= j < 3 && #[trigger] edge_key(face_edge_seq(a)[i]) == #[trigger] edge_key(face_edge_seq(b)[j])
                ==> i == i0 && j == j0,
    ensures
        same_direction(winding(a, x), winding(b, y)) == (same_direction(a, b) != (x != y)),
{
    let ea = face_edge_seq(a);
    let eb = face_edge_seq(b);
    lemma_edge_key_injective(ea[i0], eb[j0]);
    lemma_winding_edges(a, x);
    lemma_winding_edges(b, y);
    let wa = face_edge_seq(winding(a, x));
    let wb = face_edge_seq(winding(b, y));
    assert(ea[i0].0 != ea[i0].1);
    assert(eb[j0].0 != eb[j0].1);
    assert(same_direction(a, b) == (ea[i0] == eb[j0])) by {
        if same_direction(a, b) {
            let (i, j) = choose|i: int, j: int| 0 <= i < 3 && 0 <= j < 3 && #[trigger] ea[i] == #[trigger] eb[j];
            assert(edge_key(ea[i]) == edge_key(eb[j]));
        }
        if ea[i0] == eb[j0] {
            assert(ea[i0] == eb[j0]);
        }
    }
    let pa = if x { 2 - i0 } else { i0 };
    let qb = if y { 2 - j0 } else { j0 };
    assert(wa[pa] == oriented(ea[i0], x));
    assert(wb[qb] == oriented(eb[j0], y));
    assert(same_direction(winding(a, x), winding(b, y)) == (oriented(ea[i0], x) == oriented(eb[j0], y))) by {
        if same_direction(winding(a, x), winding(b, y)) {
            let (p, q) = choose|p: int, q: int| 0 <= p < 3 && 0 <= q < 3 && #[trigger] wa[p] == #[trigger] wb[q];
            let ia = if x { 2 - p } else { p };
            let ib = if y { 2 - q } else { q };
            assert(wa[p] == oriented(ea[ia], x));
            assert(wb[q] == oriented(eb[ib], y));
            lemma_edge_key_injective(ea[ia], eb[ib]);
            assert(canonical(ea[ia]) == canonical(eb[ib]));
            assert(edge_key(ea[ia]) == edge_key(eb[ib]));
            assert(ia == i0 && ib == j0);
        }
        if oriented(ea[i0], x) == oriented(eb[j0], y) {
            assert(wa[pa] == wb[qb]);
        }
    }
}

/// After local orientation of a mesh of simple faces, any two of which share
/// at most one edge, neighbors agree wherever some choice of windings would
/// make them all agree.
pub proof fn law_local_orientation_agrees(orig: Seq<[u32; 3]>, cur: Seq<[u32; 3]>, flags: Seq<bool>, g: Seq<bool>)
    requires
        cur.len() == orig.len(),
        flags.len() == orig.len(),
        forall|i: int| 0 <= i < flags.len() ==> #[trigger] cur[i] == winding(orig[i], flags[i]),
        exists|parent: Seq<int>, rank: Seq<int>, root: Seq<int>|
            oriented_forest(orig, cur, flags, parent, rank) && spanning_trees(orig, parent, rank, root),
        orig.len() <= u32::MAX,
        simple_faces(orig),
        single_shared_edges(orig),
        g.len() == orig.len(),
        consistently_wound(wound_by(orig, g)),
    ensures
        consistently_wound(cur),
{
    let (parent, rank, root) = choose|parent: Seq<int>, rank: Seq<int>, root: Seq<int>|
        oriented_forest(orig, cur, flags, parent, rank) && spanning_trees(orig, parent, rank, root);
    assert forall|i: int| 0 <= i < orig.len() implies (#[trigger] flags[i] != g[i]) == g[root[i]] by {
        lemma_tree_parity(orig, cur, flags, g, parent, rank, root, i);
    }
    assert forall|a: int, b: int| 0 <= a < cur.len() && 0 <= b < cur.len() && a != b implies !#[trigger] same_direction(
        cur[a],
        #[trigger] cur[b],
    ) by {
        if same_direction(cur[a], cur[b]) {
            let (ia, jb) = lemma_shared_edge_of_windings(orig[a], orig[b], flags[a], flags[b]);
            assert((a as usize) as int == a && (b as usize) as int == b);
            assert(faces_adjacent(orig, a as usize, b as usize));
            assert(root[a] == root[b]);
            lemma_unique_pair(orig, a, b, ia, jb);
            lemma_rewinding_toggles(orig[a], orig[b], flags[a], flags[b], ia, jb);
            lemma_rewinding_toggles(orig[a], orig[b], g[a], g[b], ia, jb);
            assert(wound_by(orig, g)[a] == winding(orig[a], g[a]));
            assert(wound_by(orig, g)[b] == winding(orig[b], g[b]));
        }
    }
}

/// Incidence `q` is corner edge `q % 3` of face `q / 3`.
proof fn lemma_incidence_at(faces: Seq<[u32; 3]>, q: int)
    requires
        faces.len() <= u32::MAX,
        0 <= q < 3 * faces.len(),
    ensures
        incidences(faces).len() == 3 * faces.len(),
        incidences(faces)[q] == ((q / 3) as u32, face_edge_seq(faces[q / 3])[q % 3]),
    decreases faces.len(),
{
    crate::topology::lemma_incidences_unfold(faces);
    let pre = faces.drop_last();
    crate::topology::lemma_incidences_unfold(pre);
    if q < 3 * pre.len() {
        lemma_incidence_at(pre, q);
        assert(pre[q / 3] == faces[q / 3]);
    }
}

/// The group of an edge key lists the incidences with that key, in order.
proof fn lemma_group_is_kept(inc: Seq<Incidence>, k: u64, keep: spec_fn(int) -> bool, n: int)
    requires
        0 <= n <= inc.len(),
        forall|q: int| #[trigger] keep(q) == (edge_key(inc[q].1) == k),
    ensures
        group_of(inc.take(n), k) == select_indices(n, |j: int| if keep(j) { Some(inc[j]) } else { None }),
    decreases n,
{
    if n > 0 {
        lemma_group_is_kept(inc, k, keep, n - 1);
        assert(inc.take(n).drop_last() =~= inc.take(n - 1));
        assert(inc.take(n).last() == inc[n - 1]);
    } else {
        assert(inc.take(0) =~= Seq::<Incidence>::empty());
    }
}

/// A consistently wound mesh has no edge whose two faces run along it in the
/// same direction: the inconsistent-normals check reports nothing.
pub proof fn law_consistent_winding_reports_nothing(faces: Seq<[u32; 3]>)
    requires
        faces.len() <= u32::MAX,
        consistently_wound(faces),
    ensures
        inconsistent_findings(faces) == Seq::<crate::model::FindingView>::empty(),
{
    let inc = incidences(faces);
    crate::topology::lemma_incidences_unfold(faces);
    assert forall|k: u64| #[trigger] inconsistent_entry(faces, k) is None by {
        let g = group_of(inc, k);
        if g.len() == 2 && g[0].1 == g[1].1 {
            let keep = |q: int| edge_key(inc[q].1) == k;
            lemma_group_is_kept(inc, k, keep, inc.len() as int);
            assert(inc.take(inc.len() as int) =~= inc);
            let idx = lemma_kept_origin(inc, keep, inc.len() as int);
            let q0 = idx[0];
            let q1 = idx[1];
            assert(q0 < q1);
            lemma_incidence_at(faces, q0);
            lemma_incidence_at(faces, q1);
            let fa = q0 / 3;
            let fb = q1 / 3;
            if fa == fb {
                // one face would repeat a directed edge, so all its corners
                // coincide and its third edge has the key too
                let f = faces[fa];
                assert(f[0] == f[1] && f[1] == f[2]);
                let q2 = if 3 * fa != q0 && 3 * fa != q1 { 3 * fa } else if 3 * fa + 1 != q0 && 3 * fa + 1 != q1 { 3 * fa + 1 } else { 3 * fa + 2 };
                lemma_incidence_at(faces, q2);
                assert(keep(q2));
                let p = choose|p: int| 0 <= p < idx.len() && #[trigger] idx[p] == q2;
                assert(p != 0 && p != 1);
            } else {
                assert(g[0] == inc[q0] && g[1] == inc[q1]);
                assert(same_direction(faces[fa], faces[fb])) by {
                    assert(face_edge_seq(faces[fa])[q0 % 3] == face_edge_seq(faces[fb])[q1 % 3]);
                }
            }
        }
    }
    lemma_select_nothing(ascending(edge_keys(faces)), |k: u64| inconsistent_entry(faces, k));
}

proof fn lemma_unique_pair(orig: Seq<[u32; 3]>, a: int, b: int, i0: int, j0: int)
    requires
        single_shared_edges(orig),
        0 <= a < orig.len(),
        0 <= b < orig.len(),
        a != b,
        0 <= i0 < 3,
        0 <= j0 < 3,
        edge_key(face_edge_seq(orig[a])[i0]) == edge_key(face_edge_seq(orig[b])[j0]),
    ensures
        forall|i: int, j: int|
            0 <= i < 3 && 0 <= j < 3 && #[trigger] edge_key(face_edge_seq(orig[a])[i]) == #[trigger] edge_key(face_edge_seq(orig[b])[j])
                ==> i == i0 && j == j0,
{
}

/// Faces that run along a common directed edge after rewinding share an
/// undirected edge.
proof fn lemma_shared_edge_of_windings(a: [u32; 3], b: [u32; 3], x: bool, y: bool) -> (ij: (int, int))
    requires
        same_direction(winding(a, x), winding(b, y)),
    ensures
        0 <= ij.0 < 3,
        0 <= ij.1 < 3,
        edge_key(face_edge_seq(a)[ij.0]) == edge_key(face_edge_seq(b)[ij.1]),
{
    lemma_winding_edges(a, x);
    lemma_winding_edges(b, y);
    let wa = face_edge_seq(winding(a, x));
    let wb = face_edge_seq(winding(b, y));
    let (p, q) = choose|p: int, q: int| 0 <= p < 3 && 0 <= q < 3 && #[trigger] wa[p] == #[trigger] wb[q];
    let ia = if x { 2 - p } else { p };
    let ib = if y { 2 - q } else { q };
    let ea = face_edge_seq(a);
    let eb = face_edge_seq(b);
    assert(wa[p] == oriented(ea[ia], x));
    assert(wb[q] == oriented(eb[ib], y));
    assert(canonical(ea[ia]) == canonical(eb[ib]));
    lemma_edge_key_injective(ea[ia], eb[ib]);
    (ia, ib)
}

/// Along the reaching forest, a face's rewinding differs from the chosen
/// winding exactly as its tree's starting face does.
#[verifier::spinoff_prover]
#[verifier::rlimit(40)]
proof fn lemma_tree_parity(
    orig: Seq<[u32; 3]>,
    cur: Seq<[u32; 3]>,
    flags: Seq<bool>,
    g: Seq<bool>,
    parent: Seq<int>,
    rank: Seq<int>,
    root: Seq<int>,
    i: int,
)
    requires
        cur.len() == orig.len(),
        flags.len() == orig.len(),
        forall|i: int| 0 <= i < flags.len() ==> #[trigger] cur[i] == winding(orig[i], flags[i]),
        oriented_forest(orig, cur, flags, parent, rank),
        spanning_trees(orig, parent, rank, root),
        orig.len() <= u32::MAX,
        simple_faces(orig),
        single_shared_edges(orig),
        g.len() == orig.len(),
        consistently_wound(wound_by(orig, g)),
        0 <= i < orig.len(),
    ensures
        (flags[i] != g[i]) == g[root[i]],
    decreases rank[i],
{
    assert(oriented_link(orig, cur, flags, parent, rank, i));
    assert(0 <= rank[i]);
    if parent[i] == -1 {
        assert(root[i] == i);
    } else {
        let p = parent[i];
        assert(0 <= rank[p]);
        lemma_tree_parity(orig, cur, flags, g, parent, rank, root, p);
        assert(root[p] == root[i]);
        assert((p as usize) as int == p && (i as usize) as int == i);
        assert(faces_adjacent(orig, p as usize, i as usize));
        let (i0, j0) = choose|i0: int, j0: int|
            0 <= i0 < 3 && 0 <= j0 < 3 && #[trigger] edge_key(face_edge_seq(orig[p])[i0]) == #[trigger] edge_key(
                face_edge_seq(orig[i])[j0],
            );
        lemma_unique_pair(orig, p, i, i0, j0);
        lemma_rewinding_toggles(orig[p], orig[i], flags[p], false, i0, j0);
        lemma_rewinding_toggles(orig[p], orig[i], g[p], g[i], i0, j0);
        assert(wound_by(orig, g)[p] == winding(orig[p], g[p]));
        assert(wound_by(orig, g)[i] == winding(orig[i], g[i]));
        assert(!same_direction(wound_by(orig, g)[p], wound_by(orig, g)[i]));
        assert(cur[p] == winding(orig[p], flags[p]));
        assert(winding(orig[i], false) == orig[i]);
    }
}

proof fn lemma_adjacent_symmetric(faces: Seq<[u32; 3]>, a: usize, b: usize)
    requires
        faces_adjacent(faces, a, b),
    ensures
        faces_adjacent(faces, b, a),
{
    let (i, j) = choose|i: int, j: int|
        0 <= i < 3 && 0 <= j < 3 && #[trigger] crate::topology::edge_key(crate::topology::face_edge_seq(faces[a as int])[i])
            == #[trigger] crate::topology::edge_key(crate::topology::face_edge_seq(faces[b as int])[j]);
    assert(crate::topology::edge_key(crate::topology::face_edge_seq(faces[b as int])[j]) == crate::topology::edge_key(
        crate::topology::face_edge_seq(faces[a as int])[i],
    ));
}

// ---------------------------------------------------------------------------
// Fix records

/// The record of a repair that changed `n` items of kind `key`.
pub open spec fn count_fix_view(rule_id: Seq<char>, message: Seq<char>, key: Seq<char>, n: nat) -> FixView {
    FixView { rule_id, message, metrics: seq![(key, count(n as int))] }
}

/// A repair record with one count metric.
pub fn fix_with_count(rule_id: &str, message: String, key: &str, n: usize) -> (f: Fix)
    ensures
        f@ == count_fix_view(rule_id@, message@, key@, n as nat),
{
    let mut metrics: Vec<Metric> = Vec::new();
    metrics.push(metric(key, MetricValue::Count(n as u64)));
    let f = Fix { rule_id: String::from_str(rule_id), message, metrics };
    proof {
        assert(f@.metrics =~= count_fix_view(rule_id@, f.message@, key@, n as nat).metrics);
    }
    f
}

/// The records of a face-removing repair: none when nothing was removed,
/// else one saying how many faces went.
pub open spec fn removal_fixes(rule_id: Seq<char>, what: Seq<char>, n: nat) -> Seq<FixView> {
    if n == 0 {
        Seq::empty()
    } else {
        seq![count_fix_view(rule_id, "removed "@ + decimal(n) + what, "faces"@, n)]
    }
}

fn removal_fix(rule_id: &str, what: &str, n: usize) -> (r: Vec<Fix>)
    ensures
        fixes_view(r@) == removal_fixes(rule_id@, what@, n as nat),
{
    let mut r: Vec<Fix> = Vec::new();
    if n > 0 {
        let mut message = String::from_str("removed ");
        message.append(decimal_string(n as u64).as_str());
        message.append(what);
        let f = fix_with_count(rule_id, message, "faces", n);
        r.push(f);
        proof {
            assert(fixes_view(r@) =~= seq![f@]);
        }
    } else {
        proof {
            assert(fixes_view(r@) =~= Seq::<FixView>::empty());
        }
    }
    r
}

// ---------------------------------------------------------------------------
// Face filtering

/// The elements of `s` at the indices where `keep` holds, in order.
pub open spec fn kept<A>(s: Seq<A>, keep: spec_fn(int) -> bool) -> Seq<A> {
    select_indices(s.len() as int, |i: int| if keep(i) { Some(s[i]) } else { None })
}

proof fn lemma_kept_step<A>(s: Seq<A>, keep: spec_fn(int) -> bool, i: int)
    requires
        0 <= i < s.len(),
    ensures
        select_indices(i + 1, |j: int| if keep(j) { Some(s[j]) } else { None }) == if keep(i) {
            select_indices(i, |j: int| if keep(j) { Some(s[j]) } else { None }).push(s[i])
        } else {
            select_indices(i, |j: int| if keep(j) { Some(s[j]) } else { None })
        },
{
}

/// Every element of `kept(s, keep)` up to `n` comes from a kept index, in
/// increasing order of index, and every kept index is used.
pub proof fn lemma_kept_origin<A>(s: Seq<A>, keep: spec_fn(int) -> bool, n: int) -> (idx: Seq<int>)
    requires
        0 <= n <= s.len(),
    ensures
        idx.len() == select_indices(n, |j: int| if keep(j) { Some(s[j]) } else { None }).len(),
        forall|p: int| 0 <= p < idx.len() ==> 0 <= #[trigger] idx[p] < n && keep(idx[p])
            && select_indices(n, |j: int| if keep(j) { Some(s[j]) } else { None })[p] == s[idx[p]],
        forall|p: int, q: int| 0 <= p < q < idx.len() ==> idx[p] < idx[q],
        forall|i: int| 0 <= i < n && #[trigger] keep(i) ==> exists|p: int| 0 <= p < idx.len() && #[trigger] idx[p] == i,
    decreases n,
{
    let f = |j: int| if keep(j) { Some(s[j]) } else { None };
    if n == 0 {
        Seq::<int>::empty()
    } else {
        let idx0 = lemma_kept_origin(s, keep, n - 1);
        let r0 = select_indices(n - 1, f);
        if keep(n - 1) {
            let idx = idx0.push(n - 1);
            let r = select_indices(n, f);
            assert(r == r0.push(s[n - 1]));
            assert forall|i: int| 0 <= i < n && #[trigger] keep(i) implies exists|p: int| 0 <= p < idx.len() && #[trigger] idx[p] == i by {
                if i == n - 1 {
                    assert(idx[r0.len() as int] == i);
                } else {
                    let p = choose|p: int| 0 <= p < idx0.len() && #[trigger] idx0[p] == i;
                    assert(idx[p] == i);
                }
            }
            idx
        } else {
            idx0
        }
    }
}

/// `s` filtered by the flags `keep`.
fn filter_faces(faces: &Vec<[u32; 3]>, keep: &Vec<bool>, Ghost(k): Ghost<spec_fn(int) -> bool>) -> (r: Vec<[u32; 3]>)
    requires
        keep@.len() == faces@.len(),
        forall|i: int| 0 <= i < faces@.len() ==> #[trigger] keep@[i] == k(i),
    ensures
        r@ == kept(faces@, k),
        r@.len() <= faces@.len(),
{
    let ghost f = |j: int| if k(j) { Some(faces@[j]) } else { None };
    let mut r: Vec<[u32; 3]> = Vec::new();
    let mut i: usize = 0;
    while i < faces.len()
        invariant
            keep@.len() == faces@.len(),
            forall|i: int| 0 <= i < faces@.len() ==> #[trigger] keep@[i] == k(i),
            f == (|j: int| if k(j) { Some(faces@[j]) } else { None }),
            0 <= i <= faces@.len(),
            r@ == select_indices(i as int, f),
            r@.len() <= i,
        decreases faces@.len() - i,
    {
        proof {
            lemma_kept_step(faces@, k, i as int);
        }
        if keep[i] {
            r.push(faces[i]);
        }
        i = i + 1;
    }
    r
}

// ---------------------------------------------------------------------------
// Degenerate-face removal

/// A face is kept when the degenerate-face check would not report it: it
/// uses three distinct vertices and its area (a binary32 bit pattern) is
/// above binary32 epsilon; a NaN area removes it.
pub open spec fn keeps_face(f: [u32; 3], area: u32) -> bool {
    !repeats_vertex(f) && f32_lt(F32_EPSILON_BITS, area)
}

pub open spec fn nondegenerate_faces(faces: Seq<[u32; 3]>, areas: Seq<u32>) -> Seq<[u32; 3]> {
    kept(faces, |i: int| keeps_face(faces[i], areas[i]))
}

/// Removes the faces that the degenerate-face check reports: those that
/// repeat a vertex or whose area is not above epsilon; `areas[i]` is the bit
/// pattern of the area of face `i`.
pub fn remove_degenerate_faces(mesh: &mut Mesh, areas: &Vec<u32>) -> (r: Vec<Fix>)
    requires
        areas@.len() == old(mesh).faces@.len(),
    ensures
        final(mesh).vertices@ == old(mesh).vertices@,
        final(mesh).faces@ == nondegenerate_faces(old(mesh).faces@, areas@),
        degenerate_findings(
            final(mesh).faces@,
            kept(areas@, |i: int| keeps_face(old(mesh).faces@[i], areas@[i])),
        ) == Seq::<crate::model::FindingView>::empty(),
        fixes_view(r@) == removal_fixes(
            "fix/remove-degenerate-faces"@,
            " degenerate faces"@,
            (old(mesh).faces@.len() - final(mesh).faces@.len()) as nat,
        ),
        old(mesh).well_formed() ==> final(mesh).well_formed(),
{
    let mut keep: Vec<bool> = Vec::new();
    let mut i: usize = 0;
    while i < mesh.faces.len()
        invariant
            areas@.len() == mesh.faces@.len(),
            0 <= i <= mesh.faces@.len(),
            keep@.len() == i,
            forall|j: int| 0 <= j < i ==> #[trigger] keep@[j] == keeps_face(mesh.faces@[j], areas@[j]),
        decreases mesh.faces@.len() - i,
    {
        let f = mesh.faces[i];
        let k = f[0] != f[1] && f[1] != f[2] && f[0] != f[2] && f32_less(F32_EPSILON_BITS, areas[i]);
        keep.push(k);
        i = i + 1;
    }
    let ghost k = |i: int| keeps_face(mesh.faces@[i], areas@[i]);
    let faces = filter_faces(&mesh.faces, &keep, Ghost(k));
    proof {
        law_no_degenerate_after_removal(mesh.faces@, areas@);
        let idx = lemma_kept_origin(mesh.faces@, k, mesh.faces@.len() as int);
        if mesh.well_formed() {
            assert forall|i: int, j: int| 0 <= i < faces@.len() && 0 <= j < 3 implies (#[trigger] faces@[i][j]) < mesh.vertices@.len() by {
                assert(faces@[i] == mesh.faces@[idx[i]]);
            }
        }
    }
    let removed = mesh.faces.len() - faces.len();
    mesh.faces = faces;
    removal_fix("fix/remove-degenerate-faces", " degenerate faces", removed)
}

/// After degenerate faces are removed, the degenerate-face check finds
/// nothing among the remaining faces and their areas.
pub proof fn law_no_degenerate_after_removal(faces: Seq<[u32; 3]>, areas: Seq<u32>)
    requires
        areas.len() == faces.len(),
    ensures
        degenerate_findings(
            nondegenerate_faces(faces, areas),
            kept(areas, |i: int| keeps_face(faces[i], areas[i])),
        ) == Seq::<crate::model::FindingView>::empty(),
{
    let k = |i: int| keeps_face(faces[i], areas[i]);
    let kf = nondegenerate_faces(faces, areas);
    let ka = kept(areas, k);
    let idx = lemma_kept_pair(faces, areas, k, faces.len() as int);
    assert forall|p: int| 0 <= p < kf.len() implies #[trigger] degenerate_entry(kf, ka, p) is None by {
        assert(kf[p] == faces[idx[p]]);
        assert(ka[p] == areas[idx[p]]);
        assert(k(idx[p]));
    }
    lemma_select_none(kf.len() as int, |p: int| degenerate_entry(kf, ka, p));
}

/// Filtering two sequences of one length by the same test takes the same positions.
proof fn lemma_kept_pair<A, B>(s: Seq<A>, t: Seq<B>, keep: spec_fn(int) -> bool, n: int) -> (idx: Seq<int>)
    requires
        0 <= n <= s.len(),
        s.len() == t.len(),
    ensures
        idx.len() == select_indices(n, |j: int| if keep(j) { Some(s[j]) } else { None }).len(),
        idx.len() == select_indices(n, |j: int| if keep(j) { Some(t[j]) } else { None }).len(),
        forall|p: int| 0 <= p < idx.len() ==> 0 <= #[trigger] idx[p] < n && keep(idx[p])
            && select_indices(n, |j: int| if keep(j) { Some(s[j]) } else { None })[p] == s[idx[p]]
            && select_indices(n, |j: int| if keep(j) { Some(t[j]) } else { None })[p] == t[idx[p]],
    decreases n,
{
    if n == 0 {
        Seq::<int>::empty()
    } else {
        let idx0 = lemma_kept_pair(s, t, keep, n - 1);
        if keep(n - 1) {
            idx0.push(n - 1)
        } else {
            idx0
        }
    }
}

// ---------------------------------------------------------------------------
// Duplicate-face removal

/// Face `i` is the first face with its set of vertex indices.
pub open spec fn first_of_kind(faces: Seq<[u32; 3]>, i: int) -> bool {
    first_alike(faces, faces[i], i) < 0
}

/// The faces left when every face that repeats the vertex set of an earlier
/// face is dropped.
pub open spec fn distinct_faces(faces: Seq<[u32; 3]>) -> Seq<[u32; 3]> {
    kept(faces, |i: int| first_of_kind(faces, i))
}

/// Removes every face that uses the same three vertices, in any order, as an
/// earlier face.
pub fn remove_duplicate_faces(mesh: &mut Mesh) -> (r: Vec<Fix>)
    ensures
        final(mesh).vertices@ == old(mesh).vertices@,
        final(mesh).faces@ == distinct_faces(old(mesh).faces@),
        fixes_view(r@) == removal_fixes(
            "fix/remove-duplicate-faces"@,
            " duplicate faces"@,
            (old(mesh).faces@.len() - final(mesh).faces@.len()) as nat,
        ),
        old(mesh).well_formed() ==> final(mesh).well_formed(),
{
    broadcast use vstd::std_specs::hash::group_hash_axioms;
    let ghost fs = mesh.faces@;
    let mut seen: HashSet<u128> = HashSet::new();
    let mut keep: Vec<bool> = Vec::new();
    let mut i: usize = 0;
    while i < mesh.faces.len()
        invariant
            fs == mesh.faces@,
            0 <= i <= fs.len(),
            keep@.len() == i,
            forall|j: int| 0 <= j < i ==> #[trigger] keep@[j] == first_of_kind(fs, j),
            forall|k: u128| #[trigger] seen@.contains(k) <==> exists|j: int| 0 <= j < i && face_key(sorted_face(#[trigger] fs[j])) == k,
        decreases fs.len() - i,
    {
        let f = mesh.faces[i];
        let key = key_of_face(sort_face(f));
        let ghost seen0 = seen@;
        let fresh = seen.insert(key);
        proof {
            lemma_first_alike(fs, f, i as int);
            if seen0.contains(key) {
                let j = choose|j: int| 0 <= j < i && face_key(sorted_face(#[trigger] fs[j])) == key;
                lemma_face_key(sorted_face(fs[j]), sorted_face(f));
                assert(first_alike(fs, f, i as int) >= 0);
            } else {
                if first_alike(fs, f, i as int) >= 0 {
                    let j = first_alike(fs, f, i as int);
                    assert(face_key(sorted_face(fs[j])) == key);
                }
            }
            assert forall|k: u128| #[trigger] seen@.contains(k) <==> exists|j: int| 0 <= j < i + 1 && face_key(sorted_face(#[trigger] fs[j])) == k by {
                if k == key {
                    assert(fs[i as int] == f);
                } else if seen@.contains(k) {
                    assert(seen0.contains(k));
                }
            }
        }
        keep.push(fresh);
        i = i + 1;
    }
    let ghost k = |j: int| first_of_kind(fs, j);
    let faces = filter_faces(&mesh.faces, &keep, Ghost(k));
    proof {
        let idx = lemma_kept_origin(fs, k, fs.len() as int);
        if mesh.well_formed() {
            assert forall|i: int, j: int| 0 <= i < faces@.len() && 0 <= j < 3 implies (#[trigger] faces@[i][j]) < mesh.vertices@.len() by {
                assert(faces@[i] == fs[idx[i]]);
            }
        }
    }
    let removed = mesh.faces.len() - faces.len();
    mesh.faces = faces;
    removal_fix("fix/remove-duplicate-faces", " duplicate faces", removed)
}

/// No two faces of `distinct_faces(faces)` share their vertex set.
proof fn lemma_distinct_faces_unalike(faces: Seq<[u32; 3]>)
    ensures
        forall|p: int, q: int|
            0 <= p < q < distinct_faces(faces).len() ==> sorted_face(#[trigger] distinct_faces(faces)[p])
                != sorted_face(#[trigger] distinct_faces(faces)[q]),
{
    let k = |i: int| first_of_kind(faces, i);
    let d = distinct_faces(faces);
    let idx = lemma_kept_origin(faces, k, faces.len() as int);
    assert forall|p: int, q: int| 0 <= p < q < d.len() implies sorted_face(#[trigger] d[p]) != sorted_face(#[trigger] d[q]) by {
        let a = idx[p];
        let b = idx[q];
        assert(a < b);
        lemma_first_alike(faces, faces[b], b);
        assert(first_alike(faces, faces[b], b) < 0);
        assert(sorted_face(faces[a]) != sorted_face(faces[b]));
    }
}

proof fn lemma_no_alike_first(faces: Seq<[u32; 3]>, f: [u32; 3], n: int)
    requires
        0 <= n <= faces.len(),
        forall|i: int| 0 <= i < n ==> sorted_face(#[trigger] faces[i]) != sorted_face(f),
    ensures
        first_alike(faces, f, n) < 0,
    decreases n,
{
    if n > 0 {
        lemma_no_alike_first(faces, f, n - 1);
    }
}

pub proof fn lemma_select_none<B>(n: int, f: spec_fn(int) -> Option<B>)
    requires
        forall|i: int| 0 <= i < n ==> #[trigger] f(i) is None,
    ensures
        select_indices(n, f) == Seq::<B>::empty(),
    decreases n,
{
    if n > 0 {
        lemma_select_none(n - 1, f);
    }
}

proof fn lemma_select_all<A>(s: Seq<A>, keep: spec_fn(int) -> bool, n: int)
    requires
        0 <= n <= s.len(),
        forall|i: int| 0 <= i < n ==> #[trigger] keep(i),
    ensures
        select_indices(n, |j: int| if keep(j) { Some(s[j]) } else { None }) == s.take(n),
    decreases n,
{
    if n > 0 {
        lemma_select_all(s, keep, n - 1);
        assert(s.take(n) =~= s.take(n - 1).push(s[n - 1]));
    } else {
        assert(s.take(0) =~= Seq::<A>::empty());
    }
}

/// After duplicate removal no duplicates are reported.
pub proof fn law_no_duplicates_after_removal(faces: Seq<[u32; 3]>)
    ensures
        duplicate_findings(distinct_faces(faces)) == Seq::<crate::model::FindingView>::empty(),
{
    let d = distinct_faces(faces);
    lemma_distinct_faces_unalike(faces);
    assert forall|i: int| 0 <= i < d.len() implies #[trigger] crate::checks::duplicate_entry(d, i) is None by {
        assert forall|j: int| 0 <= j < i implies sorted_face(#[trigger] d[j]) != sorted_face(d[i]) by {}
        lemma_no_alike_first(d, d[i], i);
    }
    lemma_select_none(d.len() as int, |i: int| crate::checks::duplicate_entry(d, i));
}

/// Removing duplicate faces twice removes nothing more.
pub proof fn law_duplicate_removal_idempotent(faces: Seq<[u32; 3]>)
    ensures
        distinct_faces(distinct_faces(faces)) == distinct_faces(faces),
{
    let d = distinct_faces(faces);
    lemma_distinct_faces_unalike(faces);
    assert forall|i: int| 0 <= i < d.len() implies #[trigger] first_of_kind(d, i) by {
        assert forall|j: int| 0 <= j < i implies sorted_face(#[trigger] d[j]) != sorted_face(d[i]) by {}
        lemma_no_alike_first(d, d[i], i);
    }
    lemma_select_all(d, |i: int| first_of_kind(d, i), d.len() as int);
    assert(d.take(d.len() as int) =~= d);
}

// ---------------------------------------------------------------------------
// Unreferenced vertices

/// The vertex indices of the faces' corners, face by face.
pub open spec fn corners(faces: Seq<[u32; 3]>) -> Seq<u32>
    decreases faces.len(),
{
    if faces.len() == 0 {
        Seq::empty()
    } else {
        let f = faces.last();
        corners(faces.drop_last()) + seq![f[0], f[1], f[2]]
    }
}

/// The elements of `s`, each once, in order of first occurrence.
pub open spec fn first_uses(s: Seq<u32>) -> Seq<u32>
    decreases s.len(),
{
    if s.len() == 0 {
        Seq::empty()
    } else {
        let r = first_uses(s.drop_last());
        if r.contains(s.last()) {
            r
        } else {
            r.push(s.last())
        }
    }
}

/// `new_vertices`/`new_faces` keep, in order of first use, exactly the
/// vertices that the faces use, with the faces renumbered to match: the
/// same triangles over fewer vertices.
pub open spec fn compacts(
    faces: Seq<[u32; 3]>,
    vertices: Seq<[u32; 3]>,
    new_faces: Seq<[u32; 3]>,
    new_vertices: Seq<[u32; 3]>,
) -> bool {
    let uses = first_uses(corners(faces));
    &&& new_vertices == uses.map_values(|v: u32| vertices[v as int])
    &&& new_faces.len() == faces.len()
    &&& forall|i: int, j: int|
        0 <= i < faces.len() && 0 <= j < 3 ==> (#[trigger] new_faces[i][j]) < uses.len() && uses[new_faces[i][j] as int]
            == faces[i][j]
}

proof fn lemma_corners(faces: Seq<[u32; 3]>)
    ensures
        corners(faces).len() == 3 * faces.len(),
        forall|i: int, j: int| 0 <= i < faces.len() && 0 <= j < 3 ==> #[trigger] corners(faces)[3 * i + j] == faces[i][j],
    decreases faces.len(),
{
    if faces.len() > 0 {
        let pre = faces.drop_last();
        lemma_corners(pre);
        assert forall|i: int, j: int| 0 <= i < faces.len() && 0 <= j < 3 implies #[trigger] corners(faces)[3 * i + j] == faces[i][j] by {
            if i < faces.len() - 1 {
                assert(corners(faces)[3 * i + j] == corners(pre)[3 * i + j]);
                assert(pre[i] == faces[i]);
            }
        }
    }
}

proof fn lemma_first_uses(s: Seq<u32>)
    ensures
        first_uses(s).no_duplicates(),
        forall|v: u32| #[trigger] first_uses(s).contains(v) <==> s.contains(v),
        first_uses(s).len() <= s.len(),
    decreases s.len(),
{
    if s.len() > 0 {
        let pre = s.drop_last();
        lemma_first_uses(pre);
        let r = first_uses(pre);
        assert forall|v: u32| #[trigger] first_uses(s).contains(v) <==> s.contains(v) by {
            if pre.contains(v) {
                let k = choose|k: int| 0 <= k < pre.len() && pre[k] == v;
                assert(s[k] == v);
            }
            if s.contains(v) && v != s.last() {
                let k = choose|k: int| 0 <= k < s.len() && s[k] == v;
                assert(pre[k] == v);
            }
            if first_uses(s).contains(v) && !r.contains(v) {
                assert(first_uses(s) == r.push(s.last()));
                let k = choose|k: int| 0 <= k < first_uses(s).len() && first_uses(s)[k] == v;
                assert(k == r.len());
                assert(s[s.len() - 1] == v);
            }
            if r.contains(v) {
                let k = choose|k: int| 0 <= k < r.len() && r[k] == v;
                assert(first_uses(s)[k] == v);
            }
            if v == s.last() && !r.contains(v) {
                assert(first_uses(s)[r.len() as int] == v);
            }
        }
    }
}

/// Drops the vertices that no face uses and renumbers the faces, keeping the
/// remaining vertices in order of first use.
pub fn remove_unreferenced_vertices(mesh: &mut Mesh)
    requires
        old(mesh).well_formed(),
        old(mesh).vertices@.len() <= u32::MAX,
    ensures
        compacts(old(mesh).faces@, old(mesh).vertices@, final(mesh).faces@, final(mesh).vertices@),
        final(mesh).well_formed(),
        final(mesh).vertices@.len() <= old(mesh).vertices@.len(),
        forall|i: int, j: int|
            0 <= i < final(mesh).faces@.len() && 0 <= j < 3 ==> final(mesh).vertices@[#[trigger] final(mesh).faces@[i][j] as int]
                == old(mesh).vertices@[old(mesh).faces@[i][j] as int],
{
    let ghost fs = mesh.faces@;
    let ghost vs = mesh.vertices@;
    let ghost cs = corners(fs);
    proof {
        lemma_corners(fs);
    }
    let nv = mesh.vertices.len();
    let mut remap: Vec<Option<u32>> = Vec::new();
    let mut v: usize = 0;
    while v < nv
        invariant
            0 <= v <= nv,
            remap@.len() == v,
            forall|w: int| 0 <= w < v ==> remap@[w] is None,
        decreases nv - v,
    {
        remap.push(None);
        v = v + 1;
    }
    let mut vertices: Vec<[u32; 3]> = Vec::new();
    let nf = mesh.faces.len();
    let mut i: usize = 0;
    proof {
        assert(cs.take(0) =~= Seq::<u32>::empty());
    }
    while i < nf
        invariant
            fs == mesh.faces@,
            vs == mesh.vertices@,
            nv == vs.len(),
            nv <= u32::MAX,
            mesh.well_formed(),
            cs == corners(fs),
            cs.len() == 3 * fs.len(),
            nf == fs.len(),
            forall|i: int, j: int| 0 <= i < fs.len() && 0 <= j < 3 ==> #[trigger] cs[3 * i + j] == fs[i][j],
            0 <= i <= nf,
            remap@.len() == nv,
            vertices@ == first_uses(cs.take(3 * i)).map_values(|v: u32| vs[v as int]),
            forall|w: int| 0 <= w < nv ==> match #[trigger] remap@[w] {
                Some(p) => p < first_uses(cs.take(3 * i)).len() && first_uses(cs.take(3 * i))[p as int] == w,
                None => !first_uses(cs.take(3 * i)).contains(w as u32),
            },
            forall|p: int| 0 <= p < first_uses(cs.take(3 * i)).len() ==> (#[trigger] first_uses(cs.take(3 * i))[p]) < nv,
        decreases nf - i,
    {
        let mut j: usize = 0;
        while j < 3
            invariant
                fs == mesh.faces@,
                vs == mesh.vertices@,
                nv == vs.len(),
                nv <= u32::MAX,
                mesh.well_formed(),
                cs == corners(fs),
                cs.len() == 3 * fs.len(),
                nf == fs.len(),
                forall|i: int, j: int| 0 <= i < fs.len() && 0 <= j < 3 ==> #[trigger] cs[3 * i + j] == fs[i][j],
                0 <= i < nf,
                0 <= j <= 3,
                remap@.len() == nv,
                vertices@ == first_uses(cs.take(3 * i + j)).map_values(|v: u32| vs[v as int]),
                forall|w: int| 0 <= w < nv ==> match #[trigger] remap@[w] {
                    Some(p) => p < first_uses(cs.take(3 * i + j)).len() && first_uses(cs.take(3 * i + j))[p as int] == w,
                    None => !first_uses(cs.take(3 * i + j)).contains(w as u32),
                },
                forall|p: int| 0 <= p < first_uses(cs.take(3 * i + j)).len() ==> (#[trigger] first_uses(cs.take(3 * i + j))[p]) < nv,
            decreases 3 - j,
        {
            let c = mesh.faces[i][j];
            let ghost t = 3 * i + j;
            let ghost u0 = first_uses(cs.take(t));
            proof {
                assert(cs[3 * i + j] == fs[i as int][j as int]);
                assert(cs.take(t + 1).drop_last() =~= cs.take(t));
                assert(cs.take(t + 1).last() == c);
                assert(c < nv);
                lemma_first_uses(cs.take(t));
            }
            match remap[c as usize] {
                Some(p) => {
                    proof {
                        assert(u0.contains(c));
                        assert(first_uses(cs.take(t + 1)) == u0);
                    }
                },
                None => {
                    proof {
                        assert(first_uses(cs.take(t + 1)) == u0.push(c));
                        lemma_no_dup_u32_bound(u0, nv as int);
                    }
                    let p = vertices.len() as u32;
                    vertices.push(mesh.vertices[c as usize]);
                    remap.set(c as usize, Some(p));
                    proof {
                        let u1 = first_uses(cs.take(t + 1));
                        assert(vertices@ =~= u1.map_values(|v: u32| vs[v as int]));
                        assert forall|w: int| 0 <= w < nv implies match #[trigger] remap@[w] {
                            Some(p) => p < u1.len() && u1[p as int] == w,
                            None => !u1.contains(w as u32),
                        } by {
                            if w != c {
                                if remap@[w] is None {
                                    if u1.contains(w as u32) {
                                        let k = choose|k: int| 0 <= k < u1.len() && u1[k] == w as u32;
                                        assert(u0[k] == w as u32);
                                    }
                                }
                            }
                        }
                    }
                },
            }
            j = j + 1;
        }
        i = i + 1;
    }
    proof {
        assert(cs.take(3 * nf) =~= cs);
        lemma_first_uses(cs);
        lemma_no_dup_u32_bound(first_uses(cs), nv as int);
    }
    let ghost uses = first_uses(cs);
    let mut faces: Vec<[u32; 3]> = Vec::new();
    let mut i: usize = 0;
    while i < mesh.faces.len()
        invariant
            fs == mesh.faces@,
            vs == mesh.vertices@,
            nv == vs.len(),
            mesh.well_formed(),
            cs == corners(fs),
            forall|i: int, j: int| 0 <= i < fs.len() && 0 <= j < 3 ==> #[trigger] cs[3 * i + j] == fs[i][j],
            uses == first_uses(cs),
            forall|v: u32| #[trigger] uses.contains(v) <==> cs.contains(v),
            cs.len() == 3 * fs.len(),
            remap@.len() == nv,
            forall|w: int| 0 <= w < nv ==> match #[trigger] remap@[w] {
                Some(p) => p < uses.len() && uses[p as int] == w,
                None => !uses.contains(w as u32),
            },
            0 <= i <= fs.len(),
            faces@.len() == i,
            forall|a: int, j: int| 0 <= a < i && 0 <= j < 3 ==> (#[trigger] faces@[a][j]) < uses.len() && uses[faces@[a][j] as int] == fs[a][j],
        decreases fs.len() - i,
    {
        let f = mesh.faces[i];
        proof {
            assert forall|j: int| 0 <= j < 3 implies #[trigger] remap@[f[j] as int] is Some by {
                assert(cs[3 * i + j] == f[j]);
                assert(0 <= 3 * i + j < cs.len());
                assert(cs.contains(f[j]));
                assert(uses.contains(f[j]));
            }
        }
        let a = match remap[f[0] as usize] { Some(p) => p, None => 0 };
        let b = match remap[f[1] as usize] { Some(p) => p, None => 0 };
        let c = match remap[f[2] as usize] { Some(p) => p, None => 0 };
        faces.push([a, b, c]);
        i = i + 1;
    }
    proof {
        assert forall|a: int, j: int| 0 <= a < faces@.len() && 0 <= j < 3 implies vertices@[#[trigger] faces@[a][j] as int] == vs[fs[a][j] as int] by {}
    }
    mesh.faces = faces;
    mesh.vertices = vertices;
}

proof fn lemma_no_dup_u32_bound(s: Seq<u32>, n: int)
    requires
        s.no_duplicates(),
        0 <= n,
        forall|k: int| 0 <= k < s.len() ==> (#[trigger] s[k]) < n,
    ensures
        s.len() <= n,
{
    let t = s.map_values(|v: u32| v as usize);
    assert(t.no_duplicates()) by {
        assert forall|a: int, b: int| 0 <= a < b < t.len() implies t[a] != t[b] by {
            assert(s[a] != s[b]);
        }
    }
    assert forall|k: int| 0 <= k < t.len() implies (#[trigger] t[k]) < n by {
        assert(s[k] < n);
    }
    lemma_no_dup_len_bound(t, n);
}

// ---------------------------------------------------------------------------
// Tiny-shell removal

/// Shell `c` stays: it is the primary shell, or its size is at least the threshold.
pub open spec fn keeps_shell(shells: Seq<Seq<usize>>, sizes: Seq<u32>, threshold: u32, c: int) -> bool {
    primary_among(sizes, shell_lens(shells), shells.len() as int) == Some(c) || f32_le(threshold, sizes[c])
}

/// Face `i` belongs to a shell that stays.
pub open spec fn in_kept_shell(shells: Seq<Seq<usize>>, sizes: Seq<u32>, threshold: u32, i: int) -> bool {
    exists|c: int| 0 <= c < shells.len() && keeps_shell(shells, sizes, threshold, c) && #[trigger] shells[c].contains(i as usize)
}

/// The faces of the shells that stay, in face order.
pub open spec fn faces_of_kept_shells(faces: Seq<[u32; 3]>, shells: Seq<Seq<usize>>, sizes: Seq<u32>, threshold: u32) -> Seq<[u32; 3]> {
    kept(faces, |i: int| in_kept_shell(shells, sizes, threshold, i))
}

/// Tiny-shell removal never drops a face of the primary shell.
pub proof fn law_primary_shell_survives(shells: Seq<Seq<usize>>, sizes: Seq<u32>, threshold: u32, c: int, i: int)
    requires
        0 <= c < shells.len(),
        primary_among(sizes, shell_lens(shells), shells.len() as int) == Some(c),
        shells[c].contains(i as usize),
    ensures
        in_kept_shell(shells, sizes, threshold, i),
{
    assert(keeps_shell(shells, sizes, threshold, c));
}

/// Tiny-shell removal keeps every face of a shell whose size is at least the
/// threshold: such a face is among the faces that remain.
pub proof fn law_large_shells_survive(
    faces: Seq<[u32; 3]>,
    shells: Seq<Seq<usize>>,
    sizes: Seq<u32>,
    threshold: u32,
    c: int,
    i: int,
)
    requires
        0 <= c < shells.len(),
        0 <= i < faces.len(),
        shells[c].contains(i as usize),
        f32_le(threshold, sizes[c]),
    ensures
        exists|j: int|
            0 <= j < faces_of_kept_shells(faces, shells, sizes, threshold).len() && faces_of_kept_shells(
                faces,
                shells,
                sizes,
                threshold,
            )[j] == faces[i],
{
    let keep = |k: int| in_kept_shell(shells, sizes, threshold, k);
    let f = |k: int| if keep(k) { Some(faces[k]) } else { None };
    assert(keeps_shell(shells, sizes, threshold, c));
    assert(keep(i));
    let idx = lemma_select_indices_positions(faces.len() as int, f);
    assert(f(i) is Some);
    let j = choose|j: int| 0 <= j < idx.len() && idx[j] == i;
    assert(faces_of_kept_shells(faces, shells, sizes, threshold)[j] == faces[i]);
}

proof fn lemma_select_len_missing<B>(n: int, f: spec_fn(int) -> Option<B>, i: int)
    requires
        0 <= i < n,
        f(i) is None,
    ensures
        select_indices(n, f).len() < n,
    decreases n,
{
    if i == n - 1 {
        lemma_select_len(n - 1, f);
    } else {
        lemma_select_len_missing(n - 1, f, i);
    }
}

/// Tiny-shell removal does remove something when a shell other than the
/// primary one is smaller than the threshold (or its size does not compare)
/// and holds a face that no other shell holds.
pub proof fn law_tiny_shell_loses_faces(
    faces: Seq<[u32; 3]>,
    shells: Seq<Seq<usize>>,
    sizes: Seq<u32>,
    threshold: u32,
    c: int,
    i: int,
)
    requires
        0 <= c < shells.len(),
        0 <= i < faces.len(),
        shells[c].contains(i as usize),
        forall|d: int| 0 <= d < shells.len() && #[trigger] shells[d].contains(i as usize) ==> d == c,
        primary_among(sizes, shell_lens(shells), shells.len() as int) != Some(c),
        !f32_le(threshold, sizes[c]),
    ensures
        faces_of_kept_shells(faces, shells, sizes, threshold).len() < faces.len(),
{
    let keep = |k: int| in_kept_shell(shells, sizes, threshold, k);
    let f = |k: int| if keep(k) { Some(faces[k]) } else { None };
    assert(!keep(i));
    lemma_select_len_missing(faces.len() as int, f, i);
}

/// Removes the shells, other than the primary one, whose size is below
/// `threshold` (or does not compare), then the vertices no face uses.
/// `sizes[c]` is the bit pattern of the size estimate of shell `c`.
pub fn remove_tiny_shells(mesh: &mut Mesh, shells: &Vec<Vec<usize>>, sizes: &Vec<u32>, threshold: u32) -> (r: Vec<Fix>)
    requires
        old(mesh).well_formed(),
        old(mesh).vertices@.len() <= u32::MAX,
        sizes@.len() == shells@.len(),
        forall|c: int, k: int| 0 <= c < shells@.len() && 0 <= k < shells@[c]@.len() ==> #[trigger] shells@[c]@[k] < old(mesh).faces@.len(),
    ensures
        compacts(
            faces_of_kept_shells(old(mesh).faces@, lists_view(shells@), sizes@, threshold),
            old(mesh).vertices@,
            final(mesh).faces@,
            final(mesh).vertices@,
        ),
        final(mesh).well_formed(),
        fixes_view(r@) == removal_fixes(
            "fix/remove-tiny-shells"@,
            " faces from tiny disconnected shells"@,
            (old(mesh).faces@.len() - final(mesh).faces@.len()) as nat,
        ),
{
    let ghost fs = mesh.faces@;
    let ghost sv = lists_view(shells@);
    let n = mesh.faces.len();
    let primary = primary_shell_index(shells, sizes);
    proof {
        lemma_primary_range(sizes@, shell_lens(sv), sv.len() as int);
    }
    let mut keep: Vec<bool> = Vec::new();
    let mut i: usize = 0;
    while i < n
        invariant
            0 <= i <= n,
            keep@.len() == i,
            forall|v: int| 0 <= v < i ==> !keep@[v],
        decreases n - i,
    {
        keep.push(false);
        i = i + 1;
    }
    let mut c: usize = 0;
    while c < shells.len()
        invariant
            fs == mesh.faces@,
            n == fs.len(),
            sv == lists_view(shells@),
            sizes@.len() == shells@.len(),
            forall|c: int, k: int| 0 <= c < shells@.len() && 0 <= k < shells@[c]@.len() ==> #[trigger] shells@[c]@[k] < n,
            primary == match primary_among(sizes@, shell_lens(sv), sv.len() as int) {
                Some(m) => Some(m as usize),
                None => None::<usize>,
            },
            primary_among(sizes@, shell_lens(sv), sv.len() as int) matches Some(m) ==> 0 <= m < sv.len(),
            0 <= c <= shells@.len(),
            keep@.len() == n,
            forall|v: int| 0 <= v < n ==> (#[trigger] keep@[v] <==> exists|d: int|
                0 <= d < c && keeps_shell(sv, sizes@, threshold, d) && #[trigger] sv[d].contains(v as usize)),
        decreases shells@.len() - c,
    {
        proof {
            assert(sv[c as int] == shells@[c as int]@);
        }
        if primary == Some(c) || f32_less_eq(threshold, sizes[c]) {
            let shell = &shells[c];
            let mut k: usize = 0;
            while k < shell.len()
                invariant
                    fs == mesh.faces@,
                    n == fs.len(),
                    sv == lists_view(shells@),
                    0 <= c < shells@.len(),
                    shell@ == sv[c as int],
                    forall|c: int, k: int| 0 <= c < shells@.len() && 0 <= k < shells@[c]@.len() ==> #[trigger] shells@[c]@[k] < n,
                    keeps_shell(sv, sizes@, threshold, c as int),
                    0 <= k <= shell@.len(),
                    keep@.len() == n,
                    forall|v: int| 0 <= v < n ==> (#[trigger] keep@[v] <==> (exists|d: int|
                        0 <= d < c && keeps_shell(sv, sizes@, threshold, d) && #[trigger] sv[d].contains(v as usize))
                        || exists|q: int| 0 <= q < k && shell@[q] == v as usize),
                decreases shell@.len() - k,
            {
                let f = shell[k];
                proof {
                    assert(shells@[c as int]@[k as int] == f);
                }
                keep.set(f, true);
                proof {
                    assert forall|v: int| 0 <= v < n implies (#[trigger] keep@[v] <==> (exists|d: int|
                        0 <= d < c && keeps_shell(sv, sizes@, threshold, d) && #[trigger] sv[d].contains(v as usize))
                        || exists|q: int| 0 <= q < k + 1 && shell@[q] == v as usize) by {
                        if v == f {
                            assert(shell@[k as int] == v as usize);
                        }
                    }
                }
                k = k + 1;
            }
            proof {
                assert forall|v: int| 0 <= v < n implies (#[trigger] keep@[v] <==> exists|d: int|
                    0 <= d < c + 1 && keeps_shell(sv, sizes@, threshold, d) && #[trigger] sv[d].contains(v as usize)) by {
                    if exists|q: int| 0 <= q < shell@.len() && shell@[q] == v as usize {
                        let q = choose|q: int| 0 <= q < shell@.len() && shell@[q] == v as usize;
                        assert(sv[c as int].contains(v as usize));
                    }
                    if sv[c as int].contains(v as usize) {
                        let q = choose|q: int| 0 <= q < sv[c as int].len() && sv[c as int][q] == v as usize;
                        assert(shell@[q] == v as usize);
                    }
                }
            }
        } else {
            proof {
                assert(!keeps_shell(sv, sizes@, threshold, c as int));
                assert forall|v: int| 0 <= v < n implies (#[trigger] keep@[v] <==> exists|d: int|
                    0 <= d < c + 1 && keeps_shell(sv, sizes@, threshold, d) && #[trigger] sv[d].contains(v as usize)) by {
                    if exists|d: int| 0 <= d < c + 1 && keeps_shell(sv, sizes@, threshold, d) && #[trigger] sv[d].contains(v as usize) {
                        let d = choose|d: int| 0 <= d < c + 1 && keeps_shell(sv, sizes@, threshold, d) && #[trigger] sv[d].contains(v as usize);
                        assert(d != c);
                    }
                }
            }
        }
        c = c + 1;
    }
    let ghost kf = |i: int| in_kept_shell(sv, sizes@, threshold, i);
    proof {
        assert forall|i: int| 0 <= i < n implies #[trigger] keep@[i] == kf(i) by {
            if keep@[i] {
                let d = choose|d: int| 0 <= d < shells@.len() && keeps_shell(sv, sizes@, threshold, d) && #[trigger] sv[d].contains(i as usize);
                assert(in_kept_shell(sv, sizes@, threshold, i));
            }
        }
    }
    let faces = filter_faces(&mesh.faces, &keep, Ghost(kf));
    proof {
        let idx = lemma_kept_origin(fs, kf, fs.len() as int);
        assert forall|i: int, j: int| 0 <= i < faces@.len() && 0 <= j < 3 implies (#[trigger] faces@[i][j]) < mesh.vertices@.len() by {
            assert(faces@[i] == fs[idx[i]]);
        }
    }
    let removed = n - faces.len();
    mesh.faces = faces;
    remove_unreferenced_vertices(mesh);
    removal_fix("fix/remove-tiny-shells", " faces from tiny disconnected shells", removed)
}

// ---------------------------------------------------------------------------
// Orientation

/// The number of `true` entries.
pub open spec fn count_true(s: Seq<bool>) -> nat
    decreases s.len(),
{
    if s.len() == 0 {
        0
    } else {
        count_true(s.drop_last()) + if s.last() { 1nat } else { 0nat }
    }
}

/// The record of an orientation repair that rewound `n` faces, if any.
pub open spec fn orientation_fixes(n: nat) -> Seq<FixView> {
    if n == 0 {
        Seq::empty()
    } else {
        seq![count_fix_view("fix/orient-faces"@, "rewound "@ + decimal(n) + " faces for consistent normals"@, "faces"@, n)]
    }
}

/// How many faces an orientation repair rewound: those rewound locally, plus
/// every face again when the whole mesh is turned outward.
pub open spec fn rewound_count(flipped: Seq<bool>, n: nat, inverted: bool) -> nat {
    count_true(flipped) + if inverted { n } else { 0 }
}

/// Completes an orientation repair after `orient_faces_locally`: when the
/// signed volume (a binary32 bit pattern) is below zero every face is
/// rewound; reports how many rewindings were made in all.
pub fn finish_orientation(faces: &mut Vec<[u32; 3]>, flipped: &Vec<bool>, signed_volume: u32) -> (r: Vec<Fix>)
    requires
        flipped@.len() == old(faces)@.len(),
        old(faces)@.len() <= u32::MAX,
    ensures
        f32_lt(signed_volume, F32_ZERO_BITS) ==> final(faces)@ == old(faces)@.map_values(|f: [u32; 3]| rewound(f)),
        !f32_lt(signed_volume, F32_ZERO_BITS) ==> final(faces)@ == old(faces)@,
        fixes_view(r@) == orientation_fixes(
            rewound_count(flipped@, old(faces)@.len(), f32_lt(signed_volume, F32_ZERO_BITS)),
        ),
{
    let ghost orig = faces@;
    let mut total: u64 = 0;
    let mut i: usize = 0;
    while i < flipped.len()
        invariant
            0 <= i <= flipped@.len(),
            total == count_true(flipped@.take(i as int)),
            total <= i,
            flipped@.len() <= u32::MAX,
        decreases flipped@.len() - i,
    {
        proof {
            assert(flipped@.take(i + 1).drop_last() =~= flipped@.take(i as int));
        }
        if flipped[i] {
            total = total + 1;
        }
        i = i + 1;
    }
    proof {
        assert(flipped@.take(flipped@.len() as int) =~= flipped@);
    }
    let inverted = f32_less(signed_volume, F32_ZERO_BITS);
    if inverted {
        let mut j: usize = 0;
        while j < faces.len()
            invariant
                faces@.len() == orig.len(),
                0 <= j <= orig.len(),
                forall|k: int| 0 <= k < j ==> #[trigger] faces@[k] == rewound(orig[k]),
                forall|k: int| j <= k < orig.len() ==> #[trigger] faces@[k] == orig[k],
            decreases orig.len() - j,
        {
            let f = faces[j];
            faces.set(j, [f[0], f[2], f[1]]);
            j = j + 1;
        }
        proof {
            assert(total <= u32::MAX);
        }
        total = total + faces.len() as u64;
        proof {
            assert(faces@ =~= orig.map_values(|f: [u32; 3]| rewound(f)));
        }
    }
    let mut r: Vec<Fix> = Vec::new();
    if total > 0 {
        let mut message = String::from_str("rewound ");
        message.append(decimal_string(total).as_str());
        message.append(" faces for consistent normals");
        let f = fix_with_count_u64("fix/orient-faces", message, "faces", total);
        r.push(f);
        proof {
            assert(fixes_view(r@) =~= seq![f@]);
        }
    } else {
        proof {
            assert(fixes_view(r@) =~= Seq::<FixView>::empty());
        }
    }
    r
}

fn fix_with_count_u64(rule_id: &str, message: String, key: &str, n: u64) -> (f: Fix)
    ensures
        f@ == count_fix_view(rule_id@, message@, key@, n as nat),
{
    let mut metrics: Vec<Metric> = Vec::new();
    metrics.push(metric(key, MetricValue::Count(n)));
    let f = Fix { rule_id: String::from_str(rule_id), message, metrics };
    proof {
        assert(f@.metrics =~= count_fix_view(rule_id@, f.message@, key@, n as nat).metrics);
    }
    f
}

// ---------------------------------------------------------------------------
// Vertex welding

/// The record of a weld that merged `n` vertices within the tolerance
/// written `tolerance_text`, if any.
pub open spec fn weld_fixes(n: nat, tolerance_text: Seq<char>) -> Seq<FixView> {
    if n == 0 {
        Seq::empty()
    } else {
        seq![count_fix_view("fix/weld-vertices"@, "merged "@ + decimal(n) + " vertices within "@ + tolerance_text + " mm"@, "vertices"@, n)]
    }
}

/// Applies a weld: vertex `v` becomes vertex `remap[v]` of `merged`, the
/// new vertex list. `tolerance_text` is the weld tolerance as written in
/// messages.
pub fn apply_vertex_merge(mesh: &mut Mesh, remap: &Vec<u32>, merged: Vec<[u32; 3]>, tolerance_text: &str) -> (r: Vec<Fix>)
    requires
        old(mesh).well_formed(),
        remap@.len() == old(mesh).vertices@.len(),
        merged@.len() <= old(mesh).vertices@.len(),
        forall|v: int| 0 <= v < remap@.len() ==> #[trigger] remap@[v] < merged@.len(),
    ensures
        final(mesh).vertices@ == merged@,
        final(mesh).faces@.len() == old(mesh).faces@.len(),
        forall|i: int, j: int|
            0 <= i < old(mesh).faces@.len() && 0 <= j < 3 ==> #[trigger] final(mesh).faces@[i][j] == remap@[old(mesh).faces@[i][j] as int],
        final(mesh).well_formed(),
        fixes_view(r@) == weld_fixes((old(mesh).vertices@.len() - merged@.len()) as nat, tolerance_text@),
{
    let ghost fs = mesh.faces@;
    let before = mesh.vertices.len();
    let mut faces: Vec<[u32; 3]> = Vec::new();
    let mut i: usize = 0;
    while i < mesh.faces.len()
        invariant
            fs == mesh.faces@,
            mesh.well_formed(),
            remap@.len() == mesh.vertices@.len(),
            0 <= i <= fs.len(),
            faces@.len() == i,
            forall|a: int, j: int| 0 <= a < i && 0 <= j < 3 ==> #[trigger] faces@[a][j] == remap@[fs[a][j] as int],
        decreases fs.len() - i,
    {
        let f = mesh.faces[i];
        proof {
            assert(f[0] < mesh.vertices@.len() && f[1] < mesh.vertices@.len() && f[2] < mesh.vertices@.len());
        }
        faces.push([remap[f[0] as usize], remap[f[1] as usize], remap[f[2] as usize]]);
        i = i + 1;
    }
    let removed = before - merged.len();
    mesh.faces = faces;
    mesh.vertices = merged;
    let mut r: Vec<Fix> = Vec::new();
    if removed > 0 {
        let mut message = String::from_str("merged ");
        message.append(decimal_string(removed as u64).as_str());
        message.append(" vertices within ");
        message.append(tolerance_text);
        message.append(" mm");
        let f = fix_with_count("fix/weld-vertices", message, "vertices", removed);
        r.push(f);
        proof {
            assert(fixes_view(r@) =~= seq![f@]);
        }
    } else {
        proof {
            assert(fixes_view(r@) =~= Seq::<FixView>::empty());
        }
    }
    r
}

// ---------------------------------------------------------------------------
// The repair sequence as a whole

/// Vertex `v` is a corner of face `f`.
pub open spec fn has_corner(f: [u32; 3], v: u32) -> bool {
    f[0] == v || f[1] == v || f[2] == v
}

/// Some face has vertex `p` as a corner.
pub open spec fn vertex_used(faces: Seq<[u32; 3]>, p: int) -> bool {
    exists|i: int, j: int| 0 <= i < faces.len() && 0 <= j < 3 && #[trigger] faces[i][j] == p
}

/// For faces without repeated vertices, the same sorted triple means the
/// same three vertices.
proof fn lemma_alike_same_corners(f: [u32; 3], g: [u32; 3])
    requires
        !repeats_vertex(f),
        !repeats_vertex(g),
    ensures
        (sorted_face(f) == sorted_face(g)) <==> (has_corner(g, f[0]) && has_corner(g, f[1]) && has_corner(g, f[2])),
{
}

proof fn lemma_rewound_alike(f: [u32; 3])
    ensures
        sorted_face(rewound(f)) == sorted_face(f),
        repeats_vertex(rewound(f)) == repeats_vertex(f),
{
}

proof fn lemma_select_len<B>(n: int, f: spec_fn(int) -> Option<B>)
    requires
        0 <= n,
    ensures
        select_indices(n, f).len() <= n,
    decreases n,
{
    if n > 0 {
        lemma_select_len(n - 1, f);
    }
}

/// After the repairs (weld, then degenerate-face removal, duplicate-face
/// removal, any rewinding of faces, and tiny-shell removal with its vertex
/// compaction), every face has three distinct vertices that exist, no two
/// faces share their vertex set, every vertex is used, and neither the faces
/// nor the vertices have grown. `welded`/`vertices` is the mesh after the
/// weld; `areas` the areas measured then; `wound` the faces after
/// orientation; `shells`, `sizes` and `threshold` what tiny-shell removal was
/// given; `faces`/`verts` the result.
pub proof fn law_repairs_leave_clean_mesh(
    welded: Seq<[u32; 3]>,
    vertices: Seq<[u32; 3]>,
    areas: Seq<u32>,
    wound: Seq<[u32; 3]>,
    shells: Seq<Seq<usize>>,
    sizes: Seq<u32>,
    threshold: u32,
    faces: Seq<[u32; 3]>,
    verts: Seq<[u32; 3]>,
)
    requires
        forall|i: int, j: int| 0 <= i < welded.len() && 0 <= j < 3 ==> (#[trigger] welded[i][j]) < vertices.len(),
        areas.len() == welded.len(),
        wound.len() == distinct_faces(nondegenerate_faces(welded, areas)).len(),
        forall|i: int|
            0 <= i < wound.len() ==> #[trigger] wound[i] == distinct_faces(nondegenerate_faces(welded, areas))[i] || wound[i]
                == rewound(distinct_faces(nondegenerate_faces(welded, areas))[i]),
        compacts(faces_of_kept_shells(wound, shells, sizes, threshold), vertices, faces, verts),
    ensures
        forall|i: int| 0 <= i < faces.len() ==> !repeats_vertex(#[trigger] faces[i]),
        forall|i: int, j: int| 0 <= i < faces.len() && 0 <= j < 3 ==> (#[trigger] faces[i][j]) < verts.len(),
        forall|a: int, b: int| 0 <= a < b < faces.len() ==> sorted_face(#[trigger] faces[a]) != sorted_face(#[trigger] faces[b]),
        duplicate_findings(faces) == Seq::<crate::model::FindingView>::empty(),
        forall|p: int| 0 <= p < verts.len() ==> #[trigger] vertex_used(faces, p),
        faces.len() <= welded.len(),
        verts.len() <= vertices.len(),
{
    let f1 = nondegenerate_faces(welded, areas);
    let k1 = |i: int| keeps_face(welded[i], areas[i]);
    let i1 = lemma_kept_origin(welded, k1, welded.len() as int);
    let f2 = distinct_faces(f1);
    let k2 = |i: int| first_of_kind(f1, i);
    let i2 = lemma_kept_origin(f1, k2, f1.len() as int);
    lemma_distinct_faces_unalike(f1);
    let k4 = |i: int| in_kept_shell(shells, sizes, threshold, i);
    let f4 = faces_of_kept_shells(wound, shells, sizes, threshold);
    let i4 = lemma_kept_origin(wound, k4, wound.len() as int);
    lemma_select_len(welded.len() as int, |j: int| if k1(j) { Some(welded[j]) } else { None });
    lemma_select_len(f1.len() as int, |j: int| if k2(j) { Some(f1[j]) } else { None });
    lemma_select_len(wound.len() as int, |j: int| if k4(j) { Some(wound[j]) } else { None });
    // properties of the faces before compaction
    assert forall|i: int| 0 <= i < f2.len() implies !repeats_vertex(#[trigger] f2[i]) && forall|j: int| 0 <= j < 3 ==> f2[i][j] < vertices.len() by {
        assert(f2[i] == f1[i2[i]]);
        assert(f1[i2[i]] == welded[i1[i2[i]]]);
        assert(k1(i1[i2[i]]));
    }
    assert forall|i: int| 0 <= i < f4.len() implies !repeats_vertex(#[trigger] f4[i]) && forall|j: int| 0 <= j < 3 ==> f4[i][j] < vertices.len() by {
        let w = i4[i];
        assert(f4[i] == wound[w]);
        lemma_rewound_alike(f2[w]);
    }
    assert forall|a: int, b: int| 0 <= a < b < f4.len() implies sorted_face(#[trigger] f4[a]) != sorted_face(#[trigger] f4[b]) by {
        let wa = i4[a];
        let wb = i4[b];
        assert(wa < wb);
        lemma_rewound_alike(f2[wa]);
        lemma_rewound_alike(f2[wb]);
        assert(sorted_face(f2[wa]) != sorted_face(f2[wb]));
    }
    // compaction renames vertices one-to-one
    let uses = first_uses(corners(f4));
    lemma_first_uses(corners(f4));
    lemma_corners(f4);
    assert forall|i: int| 0 <= i < faces.len() implies !repeats_vertex(#[trigger] faces[i]) by {
        assert(uses[faces[i][0] as int] == f4[i][0]);
        assert(uses[faces[i][1] as int] == f4[i][1]);
        assert(uses[faces[i][2] as int] == f4[i][2]);
    }
    assert forall|i: int, j: int| 0 <= i < faces.len() && 0 <= j < 3 implies (#[trigger] faces[i][j]) < verts.len() by {}
    assert forall|a: int, b: int| 0 <= a < b < faces.len() implies sorted_face(#[trigger] faces[a]) != sorted_face(#[trigger] faces[b]) by {
        if sorted_face(faces[a]) == sorted_face(faces[b]) {
            lemma_alike_same_corners(faces[a], faces[b]);
            lemma_alike_same_corners(f4[a], f4[b]);
            assert forall|j: int| 0 <= j < 3 implies uses[faces[a][j] as int] == f4[a][j] && uses[faces[b][j] as int] == f4[b][j] by {}
            assert(has_corner(f4[b], f4[a][0]) && has_corner(f4[b], f4[a][1]) && has_corner(f4[b], f4[a][2]));
        }
    }
    assert forall|i: int| 0 <= i < faces.len() implies #[trigger] crate::checks::duplicate_entry(faces, i) is None by {
        assert forall|j: int| 0 <= j < i implies sorted_face(#[trigger] faces[j]) != sorted_face(faces[i]) by {}
        lemma_no_alike_first(faces, faces[i], i);
    }
    lemma_select_none(faces.len() as int, |i: int| crate::checks::duplicate_entry(faces, i));
    assert forall|p: int| 0 <= p < verts.len() implies #[trigger] vertex_used(faces, p) by {
        let v = uses[p];
        assert(uses.contains(v));
        assert(corners(f4).contains(v));
        let q = choose|q: int| 0 <= q < corners(f4).len() && corners(f4)[q] == v;
        let i = q / 3;
        let j = q % 3;
        assert(corners(f4)[3 * i + j] == f4[i][j]);
        assert(uses[faces[i][j] as int] == v);
        assert(faces[i][j] == p);
    }
    assert forall|k: int| 0 <= k < uses.len() implies (#[trigger] uses[k]) < vertices.len() by {
        assert(uses.contains(uses[k]));
        assert(corners(f4).contains(uses[k]));
        let q = choose|q: int| 0 <= q < corners(f4).len() && corners(f4)[q] == uses[k];
        assert(corners(f4)[3 * (q / 3) + q % 3] == f4[q / 3][q % 3]);
    }
    lemma_no_dup_u32_bound(uses, vertices.len() as int);
}


/// Degenerate-face removal keeps every face with three distinct vertices
/// whose area is above binary32 epsilon.
pub proof fn law_sound_faces_survive(faces: Seq<[u32; 3]>, areas: Seq<u32>, i: int)
    requires
        0 <= i < faces.len(),
        faces[i][0] != faces[i][1] && faces[i][1] != faces[i][2] && faces[i][0] != faces[i][2],
        f32_lt(F32_EPSILON_BITS, areas[i]),
    ensures
        exists|k: int| 0 <= k < nondegenerate_faces(faces, areas).len() && nondegenerate_faces(faces, areas)[k] == faces[i],
{
    let keep = |j: int| keeps_face(faces[j], areas[j]);
    let f = |j: int| if keep(j) { Some(faces[j]) } else { None };
    assert(keep(i));
    let idx = lemma_select_indices_positions(faces.len() as int, f);
    assert(f(i) is Some);
    let k = choose|k: int| 0 <= k < idx.len() && idx[k] == i;
    assert(nondegenerate_faces(faces, areas)[k] == faces[i]);
}

/// Degenerate-face removal drops something when a face repeats a vertex or
/// its area is not above binary32 epsilon.
pub proof fn law_degenerate_faces_go(faces: Seq<[u32; 3]>, areas: Seq<u32>, i: int)
    requires
        0 <= i < faces.len(),
        faces[i][0] == faces[i][1] || faces[i][1] == faces[i][2] || faces[i][0] == faces[i][2] || !f32_lt(
            F32_EPSILON_BITS,
            areas[i],
        ),
    ensures
        nondegenerate_faces(faces, areas).len() < faces.len(),
{
    let keep = |j: int| keeps_face(faces[j], areas[j]);
    let f = |j: int| if keep(j) { Some(faces[j]) } else { None };
    assert(!keep(i));
    lemma_select_len_missing(faces.len() as int, f, i);
}

/// Duplicate-face removal keeps every face whose vertex set no earlier face
/// has.
pub proof fn law_first_of_each_vertex_set_survives(faces: Seq<[u32; 3]>, i: int)
    requires
        0 <= i < faces.len(),
        forall|j: int| 0 <= j < i ==> sorted_face(#[trigger] faces[j]) != sorted_face(faces[i]),
    ensures
        exists|k: int| 0 <= k < distinct_faces(faces).len() && distinct_faces(faces)[k] == faces[i],
{
    let keep = |j: int| first_of_kind(faces, j);
    let f = |j: int| if keep(j) { Some(faces[j]) } else { None };
    lemma_first_alike(faces, faces[i], i);
    assert(keep(i));
    let idx = lemma_select_indices_positions(faces.len() as int, f);
    assert(f(i) is Some);
    let k = choose|k: int| 0 <= k < idx.len() && idx[k] == i;
    assert(distinct_faces(faces)[k] == faces[i]);
}

/// Duplicate-face removal drops something when a face repeats the vertex set
/// of an earlier face.
pub proof fn law_repeated_vertex_set_goes(faces: Seq<[u32; 3]>, i: int, j: int)
    requires
        0 <= j < i < faces.len(),
        sorted_face(faces[j]) == sorted_face(faces[i]),
    ensures
        distinct_faces(faces).len() < faces.len(),
{
    let keep = |x: int| first_of_kind(faces, x);
    let f = |x: int| if keep(x) { Some(faces[x]) } else { None };
    lemma_first_alike(faces, faces[i], i);
    assert(!keep(i));
    lemma_select_len_missing(faces.len() as int, f, i);
}


/// The rewinding count of an orientation repair: the number of faces
/// rewound locally, plus every face when the whole mesh is turned outward.
pub proof fn law_rewound_count_counts(flipped: Seq<bool>, n: nat, inverted: bool)
    ensures
        rewound_count(flipped, n, inverted) == flipped.filter(|b: bool| b).len() + if inverted { n } else { 0 },
        orientation_fixes(rewound_count(flipped, n, inverted)).len() == if rewound_count(flipped, n, inverted) == 0 { 0int } else { 1 },
{
    lemma_count_true_filter(flipped);
}

proof fn lemma_count_true_filter(s: Seq<bool>)
    ensures
        count_true(s) == s.filter(|b: bool| b).len(),
    decreases s.len(),
{
    reveal(Seq::filter);
    if s.len() > 0 {
        lemma_count_true_filter(s.drop_last());
    }
}

} // verus!
