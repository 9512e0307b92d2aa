use vstd::prelude::*;
use crate::ieee::{normalized_bits, normalized_f32_bits};
use crate::model::{Mesh, MeshLintError};
use std::collections::HashMap;

verus! {

broadcast use vstd::std_specs::hash::group_hash_axioms;

/// Mathematical view of a mesh.
pub struct MeshModel {
    pub vertices: Seq<[u32; 3]>,
    pub faces: Seq<[u32; 3]>,
}

/// Mathematical view of an error.
pub enum ErrorModel {
    UnsupportedFormat(Seq<char>),
    InvalidStl(Seq<char>),
    MeshTooLarge,
}

impl View for Mesh {
    type V = MeshModel;

    open spec fn view(&self) -> MeshModel {
        MeshModel { vertices: self.vertices@, faces: self.faces@ }
    }
}

impl View for MeshLintError {
    type V = ErrorModel;

    open spec fn view(&self) -> ErrorModel {
        match self {
            MeshLintError::UnsupportedFormat(f) => ErrorModel::UnsupportedFormat(f@),
            MeshLintError::InvalidStl(m) => ErrorModel::InvalidStl(m@),
            MeshLintError::MeshTooLarge => ErrorModel::MeshTooLarge,
        }
    }
}

pub open spec fn mesh_result_view(r: Result<Mesh, MeshLintError>) -> Result<MeshModel, ErrorModel> {
    match r {
        Ok(m) => Ok(m@),
        Err(e) => Err(e@),
    }
}

// ---------------------------------------------------------------------------
// Vertex identity

/// The coordinates of a vertex with negative zeros made positive: two vertices
/// are the same point exactly when these agree.
pub open spec fn vertex_identity(v: [u32; 3]) -> (u32, u32, u32) {
    (normalized_bits(v[0]), normalized_bits(v[1]), normalized_bits(v[2]))
}

/// The hash key of a vertex identity.
pub open spec fn identity_key(v: [u32; 3]) -> u128 {
    (normalized_bits(v[0]) as int * 0x1_0000_0000_0000_0000 + normalized_bits(v[1]) as int
        * 0x1_0000_0000 + normalized_bits(v[2]) as int) as u128
}

proof fn lemma_identity_key(a: [u32; 3], b: [u32; 3])
    ensures
        (identity_key(a) == identity_key(b)) <==> (vertex_identity(a) == vertex_identity(b)),
{
    let (a0, a1, a2) = vertex_identity(a);
    let (b0, b1, b2) = vertex_identity(b);
    if identity_key(a) == identity_key(b) {
        let ka = a0 as int * 0x1_0000_0000_0000_0000 + a1 as int * 0x1_0000_0000 + a2 as int;
        let kb = b0 as int * 0x1_0000_0000_0000_0000 + b1 as int * 0x1_0000_0000 + b2 as int;
        assert(ka == kb);
        assert(a0 == b0 && a1 == b1 && a2 == b2) by (nonlinear_arith)
            requires
                ka == kb,
                ka == a0 as int * 0x1_0000_0000_0000_0000 + a1 as int * 0x1_0000_0000 + a2 as int,
                kb == b0 as int * 0x1_0000_0000_0000_0000 + b1 as int * 0x1_0000_0000 + b2 as int,
                0 <= a0 < 0x1_0000_0000, 0 <= a1 < 0x1_0000_0000, 0 <= a2 < 0x1_0000_0000,
                0 <= b0 < 0x1_0000_0000, 0 <= b1 < 0x1_0000_0000, 0 <= b2 < 0x1_0000_0000,
        ;
    }
}

fn vertex_key(vertex: [u32; 3]) -> (k: u128)
    ensures
        k == identity_key(vertex),
{
    let x = normalized_f32_bits(vertex[0]) as u128;
    let y = normalized_f32_bits(vertex[1]) as u128;
    let z = normalized_f32_bits(vertex[2]) as u128;
    x * 0x1_0000_0000_0000_0000 + y * 0x1_0000_0000 + z
}

/// The index of the first vertex of `vs` at the same point as `v`, or -1.
pub open spec fn find_vertex(vs: Seq<[u32; 3]>, v: [u32; 3]) -> int
    decreases vs.len(),
{
    if vs.len() == 0 {
        -1
    } else {
        let i = find_vertex(vs.drop_last(), v);
        if i >= 0 {
            i
        } else if vertex_identity(vs.last()) == vertex_identity(v) {
            vs.len() - 1
        } else {
            -1
        }
    }
}

/// The distinct points among `corners`, each kept as it first appears, in
/// order of first appearance.
pub open spec fn distinct_vertices(corners: Seq<[u32; 3]>) -> Seq<[u32; 3]>
    decreases corners.len(),
{
    if corners.len() == 0 {
        Seq::empty()
    } else {
        let vs = distinct_vertices(corners.drop_last());
        if find_vertex(vs, corners.last()) >= 0 {
            vs
        } else {
            vs.push(corners.last())
        }
    }
}

/// The vertex index given to corner `k`.
pub open spec fn corner_index(corners: Seq<[u32; 3]>, k: int) -> int {
    find_vertex(distinct_vertices(corners.take(k + 1)), corners[k])
}

/// The mesh built from a sequence of triangle corners, three per face: the
/// distinct points become the vertices and each complete triple a face.
pub open spec fn mesh_of_corners(corners: Seq<[u32; 3]>) -> MeshModel {
    MeshModel {
        vertices: distinct_vertices(corners),
        faces: Seq::new(
            corners.len() / 3,
            |t: int|
                [
                    corner_index(corners, 3 * t) as u32,
                    corner_index(corners, 3 * t + 1) as u32,
                    corner_index(corners, 3 * t + 2) as u32,
                ],
        ),
    }
}

pub open spec fn distinct_identities(vs: Seq<[u32; 3]>) -> bool {
    forall|i: int, j: int|
        0 <= i < j < vs.len() ==> vertex_identity(#[trigger] vs[i]) != vertex_identity(#[trigger] vs[j])
}

proof fn lemma_find_vertex(vs: Seq<[u32; 3]>, v: [u32; 3])
    requires
        distinct_identities(vs),
    ensures
        -1 <= find_vertex(vs, v) < vs.len(),
        find_vertex(vs, v) >= 0 ==> vertex_identity(vs[find_vertex(vs, v)]) == vertex_identity(v),
        find_vertex(vs, v) < 0 ==> forall|i: int|
            0 <= i < vs.len() ==> vertex_identity(#[trigger] vs[i]) != vertex_identity(v),
    decreases vs.len(),
{
    if vs.len() > 0 {
        lemma_find_vertex(vs.drop_last(), v);
        assert forall|i: int| 0 <= i < vs.len() - 1 implies vs.drop_last()[i] == vs[i] by {}
    }
}

proof fn lemma_find_vertex_unique(vs: Seq<[u32; 3]>, v: [u32; 3], i: int)
    requires
        distinct_identities(vs),
        0 <= i < vs.len(),
        vertex_identity(vs[i]) == vertex_identity(v),
    ensures
        find_vertex(vs, v) == i,
{
    lemma_find_vertex(vs, v);
    let j = find_vertex(vs, v);
    if j != i {
        if j < i {
            assert(vertex_identity(vs[j]) != vertex_identity(vs[i]));
        } else {
            assert(vertex_identity(vs[i]) != vertex_identity(vs[j]));
        }
    }
}

proof fn lemma_distinct_vertices(corners: Seq<[u32; 3]>)
    ensures
        distinct_identities(distinct_vertices(corners)),
        distinct_vertices(corners).len() <= corners.len(),
    decreases corners.len(),
{
    if corners.len() > 0 {
        let vs = distinct_vertices(corners.drop_last());
        lemma_distinct_vertices(corners.drop_last());
        lemma_find_vertex(vs, corners.last());
    }
}

/// The vertex table after reading `corners`: the distinct vertices and a map
/// from identity key to vertex index.
#[verifier::opaque]
spec fn table_ok(vs: Seq<[u32; 3]>, ids: Map<u128, u32>, corners: Seq<[u32; 3]>) -> bool {
    &&& vs == distinct_vertices(corners)
    &&& forall|k: u128|
        #![trigger ids[k]]
        ids.contains_key(k) ==> 0 <= ids[k] < vs.len() && identity_key(vs[ids[k] as int]) == k
    &&& forall|i: int| 0 <= i < vs.len() ==> ids.contains_key(#[trigger] identity_key(vs[i]))
}

/// Gives `vertex` the index of an existing vertex at the same point, or
/// appends it and gives it the next index.
fn add_vertex(
    vertices: &mut Vec<[u32; 3]>,
    vertex_ids: &mut HashMap<u128, u32>,
    vertex: [u32; 3],
    Ghost(corners): Ghost<Seq<[u32; 3]>>,
) -> (id: u32)
    requires
        table_ok(old(vertices)@, old(vertex_ids)@, corners),
        old(vertices)@.len() < u32::MAX,
    ensures
        table_ok(final(vertices)@, final(vertex_ids)@, corners.push(vertex)),
        id as int == corner_index(corners.push(vertex), corners.len() as int),
        final(vertices)@.len() <= old(vertices)@.len() + 1,
{
    let ghost c2 = corners.push(vertex);
    proof {
        reveal(table_ok);
        assert(c2.take(corners.len() + 1 as int) =~= c2);
        assert(c2.drop_last() =~= corners);
        lemma_distinct_vertices(corners);
    }
    let key = vertex_key(vertex);
    match vertex_ids.get(&key) {
        Some(id) => {
            let id = *id;
            proof {
                lemma_identity_key(vertices@[id as int], vertex);
                lemma_find_vertex_unique(vertices@, vertex, id as int);
            }
            id
        },
        None => {
            let id = vertices.len() as u32;
            proof {
                lemma_find_vertex(old(vertices)@, vertex);
                if find_vertex(old(vertices)@, vertex) >= 0 {
                    let i = find_vertex(old(vertices)@, vertex);
                    lemma_identity_key(old(vertices)@[i], vertex);
                }
            }
            vertices.push(vertex);
            vertex_ids.insert(key, id);
            proof {
                reveal(table_ok);
                assert(vertices@.drop_last() =~= old(vertices)@);
                assert forall|k: u128| #![trigger vertex_ids@[k]] vertex_ids@.contains_key(k) implies
                    0 <= vertex_ids@[k] < vertices@.len() && identity_key(vertices@[vertex_ids@[k] as int]) == k by {}
                assert forall|i: int| 0 <= i < vertices@.len() implies vertex_ids@.contains_key(#[trigger] identity_key(vertices@[i])) by {
                    if i < old(vertices)@.len() {
                        assert(vertices@[i] == old(vertices)@[i]);
                    }
                }
            }
            id
        },
    }
}

/// Builds the mesh of a sequence of triangle corners: corners at the same
/// point share a vertex, and every three consecutive corners form a face
/// (a trailing one or two corners still contribute their vertices).
pub fn mesh_from_corners(corners: &Vec<[u32; 3]>) -> (m: Mesh)
    requires
        corners@.len() < u32::MAX,
    ensures
        m@ == mesh_of_corners(corners@),
        m.well_formed(),
{
    let ghost cs = corners@;
    let n = corners.len();
    let mut vertices: Vec<[u32; 3]> = Vec::new();
    let mut faces: Vec<[u32; 3]> = Vec::new();
    let mut vertex_ids: HashMap<u128, u32> = HashMap::new();
    let mut pending: [u32; 3] = [0, 0, 0];
    let mut k: usize = 0;
    proof {
        assert(cs.take(0) =~= Seq::<[u32; 3]>::empty());
        reveal(table_ok);
        assert(table_ok(vertices@, vertex_ids@, cs.take(0)));
    }
    while k < n
        invariant
            cs == corners@,
            n == cs.len(),
            n < u32::MAX,
            0 <= k <= n,
            table_ok(vertices@, vertex_ids@, cs.take(k as int)),
            vertices@.len() <= k,
            faces@ == mesh_of_corners(cs).faces.take(k as int / 3),
            forall|j: int| 0 <= j < k % 3 ==> pending[j] as int == corner_index(cs, k - k % 3 + j),
        decreases n - k,
    {
        proof {
            assert(cs.take(k as int).push(cs[k as int]) =~= cs.take(k + 1));
            assert(cs.take(k + 1).take(k + 1) =~= cs.take(k + 1));
        }
        let id = add_vertex(&mut vertices, &mut vertex_ids, corners[k], Ghost(cs.take(k as int)));
        let slot = k % 3;
        pending[slot] = id;
        if slot == 2 {
            let ghost old_faces = faces@;
            faces.push(pending);
            proof {
                let t = k as int / 3;
                assert(t < cs.len() / 3);
                assert(pending =~= mesh_of_corners(cs).faces[t]);
                lemma_take_extend(mesh_of_corners(cs).faces, old_faces, t);
            }
        }
        k = k + 1;
    }
    proof {
        lemma_distinct_vertices(cs);
        assert(cs.take(n as int) =~= cs);
        assert(faces@ =~= mesh_of_corners(cs).faces);
        lemma_mesh_of_corners_well_formed(cs);
    }
    Mesh { vertices, faces }
}

// ---------------------------------------------------------------------------
// Binary STL reading

/// The little-endian `u32` at byte `i`.
pub open spec fn le_u32(b: Seq<u8>, i: int) -> u32 {
    (b[i] as int + b[i + 1] as int * 0x100 + b[i + 2] as int * 0x1_0000 + b[i + 3] as int
        * 0x100_0000) as u32
}

/// The triangle count of a binary STL header.
pub open spec fn binary_triangle_count(b: Seq<u8>) -> int {
    le_u32(b, 80) as int
}

/// The bytes have the exact length that the binary STL header announces:
/// 80 header bytes, a count, and 50 bytes per triangle.
pub open spec fn is_binary_stl(b: Seq<u8>) -> bool {
    b.len() >= 84 && b.len() == 84 + 50 * binary_triangle_count(b)
}

/// Corner `c` of triangle `t` of a binary STL: three little-endian binary32
/// patterns after the header, the triangle's 12-byte normal and the earlier corners.
pub open spec fn binary_corner(b: Seq<u8>, t: int, c: int) -> [u32; 3] {
    let o = 84 + 50 * t + 12 + 12 * c;
    [le_u32(b, o), le_u32(b, o + 4), le_u32(b, o + 8)]
}

/// All triangle corners of a binary STL, in file order.
#[verifier::opaque]
pub open spec fn binary_corners(b: Seq<u8>) -> Seq<[u32; 3]> {
    Seq::new((3 * binary_triangle_count(b)) as nat, |k: int| binary_corner(b, k / 3, k % 3))
}

/// What reading binary STL bytes yields.
pub open spec fn binary_stl_result(b: Seq<u8>) -> Result<MeshModel, ErrorModel> {
    if b.len() < 84 {
        Err(ErrorModel::InvalidStl("binary header is truncated"@))
    } else if !is_binary_stl(b) {
        Err(ErrorModel::InvalidStl("binary triangle data is truncated"@))
    } else {
        Ok(mesh_of_corners(binary_corners(b)))
    }
}

/// The largest input this library reads: every vertex index must fit in 32 bits.
pub open spec fn readable_size(len: int) -> bool {
    len <= 84 + 50 * 0x5555_5554
}

fn read_u32_le(b: &[u8], i: usize) -> (r: u32)
    requires
        i + 4 <= b@.len(),
    ensures
        r == le_u32(b@, i as int),
{
    b[i] as u32 + (b[i + 1] as u32) * 0x100 + (b[i + 2] as u32) * 0x1_0000 + (b[i + 3] as u32) * 0x100_0000
}

fn read_corner(
    bytes: &[u8],
    pos: usize,
    vertices: &mut Vec<[u32; 3]>,
    vertex_ids: &mut HashMap<u128, u32>,
    Ghost(k): Ghost<int>,
) -> (id: u32)
    requires
        is_binary_stl(bytes@),
        readable_size(bytes@.len() as int),
        0 <= k < 3 * binary_triangle_count(bytes@),
        pos == 84 + 50 * (k / 3) + 12 + 12 * (k % 3),
        table_ok(old(vertices)@, old(vertex_ids)@, binary_corners(bytes@).take(k)),
        old(vertices)@.len() <= k,
    ensures
        table_ok(final(vertices)@, final(vertex_ids)@, binary_corners(bytes@).take(k + 1)),
        final(vertices)@.len() <= k + 1,
        id as int == corner_index(binary_corners(bytes@), k),
{
    let ghost corners = binary_corners(bytes@);
    let len = bytes.len();
    proof {
        assert(50 * (k / 3) + 50 <= 50 * binary_triangle_count(bytes@)) by (nonlinear_arith)
            requires 0 <= k / 3 < binary_triangle_count(bytes@);
    }
    let x = read_u32_le(bytes, pos);
    let y = read_u32_le(bytes, pos + 4);
    let z = read_u32_le(bytes, pos + 8);
    let v = [x, y, z];
    proof {
        reveal(binary_corners);
        assert(v =~= corners[k]);
        assert(corners.take(k).push(v) =~= corners.take(k + 1));
        assert(corners.take(k + 1).take(k + 1) =~= corners.take(k + 1));
    }
    add_vertex(vertices, vertex_ids, v, Ghost(corners.take(k)))
}

fn read_triangle(
    bytes: &[u8],
    offset: usize,
    vertices: &mut Vec<[u32; 3]>,
    vertex_ids: &mut HashMap<u128, u32>,
    Ghost(t): Ghost<int>,
) -> (face: [u32; 3])
    requires
        is_binary_stl(bytes@),
        readable_size(bytes@.len() as int),
        0 <= t < binary_triangle_count(bytes@),
        offset == 84 + 50 * t,
        table_ok(old(vertices)@, old(vertex_ids)@, binary_corners(bytes@).take(3 * t)),
        old(vertices)@.len() <= 3 * t,
    ensures
        table_ok(final(vertices)@, final(vertex_ids)@, binary_corners(bytes@).take(3 * t + 3)),
        final(vertices)@.len() <= 3 * t + 3,
        face == mesh_of_corners(binary_corners(bytes@)).faces[t],
{
    let len = bytes.len();
    proof {
        assert(50 * t + 50 <= 50 * binary_triangle_count(bytes@)) by (nonlinear_arith)
            requires 0 <= t < binary_triangle_count(bytes@);
        assert((3 * t) / 3 == t && (3 * t) % 3 == 0);
        assert((3 * t + 1) / 3 == t && (3 * t + 1) % 3 == 1);
        assert((3 * t + 2) / 3 == t && (3 * t + 2) % 3 == 2);
    }
    let a = read_corner(bytes, offset + 12, vertices, vertex_ids, Ghost(3 * t));
    let b = read_corner(bytes, offset + 24, vertices, vertex_ids, Ghost(3 * t + 1));
    let c = read_corner(bytes, offset + 36, vertices, vertex_ids, Ghost(3 * t + 2));
    let face = [a, b, c];
    proof {
        let corners = binary_corners(bytes@);
        reveal(binary_corners);
        assert(t < corners.len() / 3);
        assert(face =~= mesh_of_corners(corners).faces[t]);
    }
    face
}

/// Whether the bytes are laid out as a binary STL (as opposed to ASCII).
pub fn looks_like_binary_stl(bytes: &[u8]) -> (r: bool)
    ensures
        r == is_binary_stl(bytes@),
{
    if bytes.len() < 84 {
        return false;
    }
    let count = read_u32_le(bytes, 80) as u64;
    let expected: u64 = 84 + count * 50;
    expected == bytes.len() as u64
}

/// Reads a binary STL. Corners at the same point (negative zero equal to
/// zero) share one vertex; vertices keep the order in which they first appear.
pub fn parse_binary_stl(bytes: &[u8]) -> (r: Result<Mesh, MeshLintError>)
    requires
        readable_size(bytes@.len() as int),
    ensures
        mesh_result_view(r) == binary_stl_result(bytes@),
        r is Ok ==> r->Ok_0.well_formed(),
{
    if bytes.len() < 84 {
        return Err(MeshLintError::InvalidStl(String::from_str("binary header is truncated")));
    }
    let count = read_u32_le(bytes, 80);
    if !looks_like_binary_stl(bytes) {
        return Err(MeshLintError::InvalidStl(String::from_str("binary triangle data is truncated")));
    }
    let ghost b = bytes@;
    let ghost corners = binary_corners(b);
    let triangle_count = count as usize;
    let mut vertices: Vec<[u32; 3]> = Vec::new();
    let mut faces: Vec<[u32; 3]> = Vec::new();
    let mut vertex_ids: HashMap<u128, u32> = HashMap::new();
    let mut offset: usize = 84;
    let mut t: usize = 0;
    let len = bytes.len();
    proof {
        lemma_binary_corners_len(b);
        assert(corners.take(0) =~= Seq::<[u32; 3]>::empty());
        reveal(table_ok);
        assert(table_ok(vertices@, vertex_ids@, corners.take(0)));
    }
    while t < triangle_count
        invariant
            b == bytes@,
            len == b.len(),
            is_binary_stl(b),
            corners == binary_corners(b),
            corners.len() == 3 * triangle_count,
            triangle_count == binary_triangle_count(b),
            readable_size(b.len() as int),
            0 <= t <= triangle_count,
            offset == 84 + 50 * t,
            table_ok(vertices@, vertex_ids@, corners.take(3 * t)),
            vertices@.len() <= 3 * t,
            faces@ == mesh_of_corners(corners).faces.take(t as int),
        decreases triangle_count - t,
    {
        proof {
            assert(50 * t + 50 <= 50 * triangle_count) by (nonlinear_arith)
                requires t < triangle_count;
        }
        let face = read_triangle(bytes, offset, &mut vertices, &mut vertex_ids, Ghost(t as int));
        let ghost old_faces = faces@;
        faces.push(face);
        proof {
            lemma_take_extend(mesh_of_corners(corners).faces, old_faces, t as int);
        }
        t = t + 1;
        offset = offset + 50;
    }
    proof {
        reveal(binary_corners);
        assert(corners.take(3 * triangle_count) =~= corners);
        assert(faces@ =~= mesh_of_corners(corners).faces);
        lemma_mesh_of_corners_well_formed(corners);
    }
    Ok(Mesh { vertices, faces })
}

proof fn lemma_binary_corners_len(b: Seq<u8>)
    ensures
        binary_corners(b).len() == 3 * binary_triangle_count(b),
{
    reveal(binary_corners);
}

proof fn lemma_take_extend<A>(s: Seq<A>, prefix: Seq<A>, t: int)
    requires
        0 <= t < s.len(),
        prefix == s.take(t),
    ensures
        prefix.push(s[t]) == s.take(t + 1),
{
    assert(prefix.push(s[t]) =~= s.take(t + 1));
}

proof fn lemma_distinct_vertices_prefix(corners: Seq<[u32; 3]>, n: int)
    requires
        0 <= n <= corners.len(),
    ensures
        distinct_vertices(corners.take(n)).len() <= distinct_vertices(corners).len(),
        forall|i: int| 0 <= i < distinct_vertices(corners.take(n)).len()
            ==> #[trigger] distinct_vertices(corners.take(n))[i] == distinct_vertices(corners)[i],
    decreases corners.len() - n,
{
    if n < corners.len() {
        lemma_distinct_vertices_prefix(corners, n + 1);
        assert(corners.take(n + 1).drop_last() =~= corners.take(n));
        let vs = distinct_vertices(corners.take(n));
        let ws = distinct_vertices(corners.take(n + 1));
        assert(ws == vs || ws == vs.push(corners.take(n + 1).last()));
        assert forall|i: int| 0 <= i < vs.len() implies #[trigger] vs[i] == distinct_vertices(corners)[i] by {
            assert(vs[i] == ws[i]);
        }
    } else {
        assert(corners.take(n) =~= corners);
    }
}

/// Every corner index points at an existing vertex at the corner's point.
pub proof fn lemma_corner_index(corners: Seq<[u32; 3]>, k: int)
    requires
        0 <= k < corners.len(),
    ensures
        0 <= corner_index(corners, k) < distinct_vertices(corners).len(),
        vertex_identity(distinct_vertices(corners)[corner_index(corners, k)]) == vertex_identity(corners[k]),
{
    let pre = corners.take(k + 1);
    assert(pre.drop_last() =~= corners.take(k));
    assert(pre.last() == corners[k]);
    lemma_distinct_vertices(pre.drop_last());
    lemma_distinct_vertices(pre);
    lemma_find_vertex(distinct_vertices(pre.drop_last()), corners[k]);
    lemma_find_vertex(distinct_vertices(pre), corners[k]);
    lemma_distinct_vertices_prefix(corners, k + 1);
    if find_vertex(distinct_vertices(pre.drop_last()), corners[k]) < 0 {
        let vs = distinct_vertices(pre.drop_last());
        assert(distinct_vertices(pre) == vs.push(corners[k]));
        assert(vs.push(corners[k]).drop_last() =~= vs);
    }
}

proof fn lemma_mesh_of_corners_well_formed(corners: Seq<[u32; 3]>)
    ensures
        ({
            let m = mesh_of_corners(corners);
            forall|i: int, j: int|
                0 <= i < m.faces.len() && 0 <= j < 3 ==> (#[trigger] m.faces[i][j]) < m.vertices.len()
        }),
{
    let m = mesh_of_corners(corners);
    lemma_distinct_vertices(corners);
    assert forall|i: int, j: int| 0 <= i < m.faces.len() && 0 <= j < 3 implies (#[trigger] m.faces[i][j]) < m.vertices.len() by {
        assert(3 * i + j < corners.len()) by (nonlinear_arith)
            requires 0 <= i < corners.len() / 3, 0 <= j < 3;
        lemma_corner_index(corners, 3 * i + j);
    }
}

proof fn lemma_find_any(vs: Seq<[u32; 3]>, v: [u32; 3])
    ensures
        -1 <= find_vertex(vs, v) < vs.len(),
        find_vertex(vs, v) >= 0 ==> vertex_identity(vs[find_vertex(vs, v)]) == vertex_identity(v),
        find_vertex(vs, v) >= 0 ==> forall|i: int|
            0 <= i < find_vertex(vs, v) ==> vertex_identity(#[trigger] vs[i]) != vertex_identity(v),
        find_vertex(vs, v) < 0 ==> forall|i: int|
            0 <= i < vs.len() ==> vertex_identity(#[trigger] vs[i]) != vertex_identity(v),
    decreases vs.len(),
{
    if vs.len() > 0 {
        lemma_find_any(vs.drop_last(), v);
        assert forall|i: int| 0 <= i < vs.len() - 1 implies vs.drop_last()[i] == vs[i] by {}
    }
}

proof fn lemma_first_occurrences(corners: Seq<[u32; 3]>)
    ensures
        ({
            let vs = distinct_vertices(corners);
            &&& forall|k: int| 0 <= k < corners.len() ==> find_vertex(vs, #[trigger] corners[k]) >= 0
            &&& forall|p: int| 0 <= p < vs.len() ==> 0 <= #[trigger] find_vertex(corners, vs[p]) && corners[find_vertex(corners, vs[p])] == vs[p]
            &&& forall|p: int, q: int| 0 <= p < q < vs.len() ==> #[trigger] find_vertex(corners, vs[p]) < #[trigger] find_vertex(corners, vs[q])
        }),
    decreases corners.len(),
{
    if corners.len() > 0 {
        let pre = corners.drop_last();
        let c = corners.last();
        lemma_first_occurrences(pre);
        lemma_distinct_vertices(pre);
        let v0 = distinct_vertices(pre);
        let vs = distinct_vertices(corners);
        lemma_find_vertex(v0, c);
        assert forall|p: int| 0 <= p < v0.len() implies find_vertex(corners, v0[p]) == find_vertex(pre, v0[p]) by {
            lemma_find_any(pre, v0[p]);
        }
        if find_vertex(v0, c) < 0 {
            assert(vs == v0.push(c));
            lemma_find_any(pre, c);
            assert(find_vertex(pre, c) < 0) by {
                if find_vertex(pre, c) >= 0 {
                    let k = find_vertex(pre, c);
                    assert(find_vertex(v0, pre[k]) >= 0);
                    lemma_find_vertex(v0, pre[k]);
                    assert(vertex_identity(v0[find_vertex(v0, pre[k])]) == vertex_identity(c));
                }
            }
            assert(find_vertex(corners, c) == corners.len() - 1);
            assert forall|k: int| 0 <= k < corners.len() implies find_vertex(vs, #[trigger] corners[k]) >= 0 by {
                if k < pre.len() {
                    assert(pre[k] == corners[k]);
                    assert(find_vertex(v0, pre[k]) >= 0);
                    lemma_find_any(vs, corners[k]);
                    lemma_find_any(v0, corners[k]);
                    if find_vertex(vs, corners[k]) < 0 {
                        let i = find_vertex(v0, corners[k]);
                        assert(vs[i] == v0[i]);
                    }
                } else {
                    lemma_find_any(vs, corners[k]);
                    if find_vertex(vs, corners[k]) < 0 {
                        assert(vs[v0.len() as int] == c);
                    }
                }
            }
            assert forall|p: int| 0 <= p < vs.len() implies 0 <= #[trigger] find_vertex(corners, vs[p]) && corners[find_vertex(corners, vs[p])] == vs[p] by {
                if p < v0.len() {
                    assert(vs[p] == v0[p]);
                    lemma_find_any(pre, v0[p]);
                    assert(pre[find_vertex(pre, v0[p])] == corners[find_vertex(pre, v0[p])]);
                }
            }
            assert forall|p: int, q: int| 0 <= p < q < vs.len() implies #[trigger] find_vertex(corners, vs[p]) < #[trigger] find_vertex(corners, vs[q]) by {
                assert(vs[p] == v0[p]);
                if q < v0.len() {
                    assert(vs[q] == v0[q]);
                }
                lemma_find_any(pre, v0[p]);
            }
        } else {
            assert(vs == v0);
            assert forall|k: int| 0 <= k < corners.len() implies find_vertex(vs, #[trigger] corners[k]) >= 0 by {
                if k < pre.len() {
                    assert(pre[k] == corners[k]);
                }
            }
            assert forall|p: int| 0 <= p < vs.len() implies 0 <= #[trigger] find_vertex(corners, vs[p]) && corners[find_vertex(corners, vs[p])] == vs[p] by {
                lemma_find_any(pre, v0[p]);
                assert(pre[find_vertex(pre, v0[p])] == corners[find_vertex(pre, v0[p])]);
            }
        }
    }
}

/// Reading deduplicates points: every face refers to an existing vertex at
/// its corner's point, no two vertices are at the same point (`-0.0` counted
/// as `0.0`), every vertex is a corner of the input, and the vertices come in
/// order of their first occurrence among the corners.
pub proof fn law_read_mesh_is_deduplicated(corners: Seq<[u32; 3]>)
    requires
        corners.len() <= u32::MAX,
    ensures
        ({
            let m = mesh_of_corners(corners);
            &&& forall|t: int, c: int| 0 <= t < m.faces.len() && 0 <= c < 3 ==> (#[trigger] m.faces[t][c]) < m.vertices.len()
                && vertex_identity(m.vertices[m.faces[t][c] as int]) == vertex_identity(corners[3 * t + c])
            &&& distinct_identities(m.vertices)
            &&& forall|p: int| 0 <= p < m.vertices.len() ==> 0 <= #[trigger] find_vertex(corners, m.vertices[p])
                && corners[find_vertex(corners, m.vertices[p])] == m.vertices[p]
            &&& forall|p: int, q: int| 0 <= p < q < m.vertices.len() ==> #[trigger] find_vertex(corners, m.vertices[p])
                < #[trigger] find_vertex(corners, m.vertices[q])
        }),
{
    let m = mesh_of_corners(corners);
    lemma_distinct_vertices(corners);
    lemma_first_occurrences(corners);
    assert forall|t: int, c: int| 0 <= t < m.faces.len() && 0 <= c < 3 implies (#[trigger] m.faces[t][c]) < m.vertices.len()
        && vertex_identity(m.vertices[m.faces[t][c] as int]) == vertex_identity(corners[3 * t + c]) by {
        assert(3 * t + c < corners.len()) by (nonlinear_arith)
            requires 0 <= t < corners.len() / 3, 0 <= c < 3;
        lemma_corner_index(corners, 3 * t + c);
        assert(m.faces[t][c] as int == corner_index(corners, 3 * t + c));
    }
}

// ---------------------------------------------------------------------------
// Binary STL writing

/// The four little-endian bytes of `v`.
#[verifier::opaque]
pub open spec fn le_bytes(v: u32) -> Seq<u8> {
    seq![(v % 0x100) as u8, (v / 0x100 % 0x100) as u8, (v / 0x1_0000 % 0x100) as u8, (v / 0x100_0000) as u8]
}

/// The text that opens the header of a written binary STL.
pub open spec fn header_text() -> Seq<u8> {
    seq![109u8, 101, 115, 104, 108, 105, 110, 116, 32, 102, 105, 120, 101, 100, 32, 98, 105, 110, 97, 114, 121, 32]
}

/// The 80-byte header: the text, padded with zeros.
pub open spec fn stl_header() -> Seq<u8> {
    Seq::new(80, |i: int| if i < 22 { header_text()[i] } else { 0u8 })
}

/// The twelve bytes of three little-endian binary32 patterns.
pub open spec fn triple_bytes(v: [u32; 3]) -> Seq<u8> {
    le_bytes(v[0]) + le_bytes(v[1]) + le_bytes(v[2])
}

/// The 50-byte record of face `t`: its normal, its three corners, and two
/// zero attribute bytes.
pub open spec fn face_record(m: MeshModel, normals: Seq<[u32; 3]>, t: int) -> Seq<u8> {
    let f = m.faces[t];
    triple_bytes(normals[t]) + triple_bytes(m.vertices[f[0] as int]) + triple_bytes(m.vertices[f[1] as int])
        + triple_bytes(m.vertices[f[2] as int]) + seq![0u8, 0u8]
}

/// The records of the first `k` faces.
pub open spec fn face_records(m: MeshModel, normals: Seq<[u32; 3]>, k: int) -> Seq<u8>
    decreases k,
{
    if k <= 0 {
        Seq::empty()
    } else {
        face_records(m, normals, k - 1) + face_record(m, normals, k - 1)
    }
}

/// The binary STL that `write_binary_stl` produces.
pub open spec fn binary_stl_bytes(m: MeshModel, normals: Seq<[u32; 3]>) -> Seq<u8> {
    stl_header() + le_bytes(m.faces.len() as u32) + face_records(m, normals, m.faces.len() as int)
}

fn push_u32_le(out: &mut Vec<u8>, v: u32)
    ensures
        final(out)@ == old(out)@ + le_bytes(v),
{
    out.push((v % 0x100) as u8);
    out.push((v / 0x100 % 0x100) as u8);
    out.push((v / 0x1_0000 % 0x100) as u8);
    out.push((v / 0x100_0000) as u8);
    proof {
        reveal(le_bytes);
        assert(final(out)@ =~= old(out)@ + le_bytes(v));
    }
}

fn push_triple(out: &mut Vec<u8>, v: [u32; 3])
    ensures
        final(out)@ == old(out)@ + triple_bytes(v),
{
    push_u32_le(out, v[0]);
    push_u32_le(out, v[1]);
    push_u32_le(out, v[2]);
    proof {
        assert(final(out)@ =~= old(out)@ + triple_bytes(v));
    }
}

/// Writes the mesh as binary STL, with `normals[t]` as the stored normal of
/// face `t` (binary32 bit patterns). Fails with `MeshTooLarge` when the face
/// count does not fit the 32-bit header field.
pub fn write_binary_stl(mesh: &Mesh, normals: &Vec<[u32; 3]>) -> (r: Result<Vec<u8>, MeshLintError>)
    requires
        mesh.well_formed(),
        normals@.len() == mesh.faces@.len(),
    ensures
        mesh.faces@.len() > u32::MAX <==> r is Err,
        r matches Err(e) ==> e@ == ErrorModel::MeshTooLarge,
        r matches Ok(b) ==> b@ == binary_stl_bytes(mesh@, normals@),
{
    let n = mesh.faces.len();
    if n > 0xffff_ffff {
        return Err(MeshLintError::MeshTooLarge);
    }
    let triangle_count = n as u32;
    let mut out: Vec<u8> = Vec::new();
    let text: [u8; 22] = [109, 101, 115, 104, 108, 105, 110, 116, 32, 102, 105, 120, 101, 100, 32, 98, 105, 110, 97, 114, 121, 32];
    let mut i: usize = 0;
    while i < 80
        invariant
            0 <= i <= 80,
            text@ == header_text(),
            out@ == stl_header().take(i as int),
        decreases 80 - i,
    {
        if i < 22 {
            out.push(text[i]);
        } else {
            out.push(0);
        }
        proof {
            assert(out@ =~= stl_header().take(i + 1));
        }
        i = i + 1;
    }
    proof {
        assert(stl_header().take(80) =~= stl_header());
    }
    push_u32_le(&mut out, triangle_count);
    let ghost m = mesh@;
    let mut t: usize = 0;
    while t < n
        invariant
            m == mesh@,
            mesh.well_formed(),
            n == mesh.faces@.len(),
            normals@.len() == n,
            triangle_count == n,
            0 <= t <= n,
            out@ == stl_header() + le_bytes(triangle_count) + face_records(m, normals@, t as int),
        decreases n - t,
    {
        let face = mesh.faces[t];
        let ghost before = out@;
        proof {
            assert(face[0] < mesh.vertices@.len() && face[1] < mesh.vertices@.len() && face[2] < mesh.vertices@.len()) by {
                assert(mesh.faces@[t as int][0] == face[0]);
                assert(mesh.faces@[t as int][1] == face[1]);
                assert(mesh.faces@[t as int][2] == face[2]);
            }
        }
        push_triple(&mut out, normals[t]);
        push_triple(&mut out, mesh.vertices[face[0] as usize]);
        push_triple(&mut out, mesh.vertices[face[1] as usize]);
        push_triple(&mut out, mesh.vertices[face[2] as usize]);
        out.push(0);
        out.push(0);
        proof {
            assert(out@ =~= before + face_record(m, normals@, t as int));
        }
        t = t + 1;
    }
    Ok(out)
}

proof fn lemma_le_bytes_len(v: u32)
    ensures
        le_bytes(v).len() == 4,
{
    reveal(le_bytes);
}

proof fn lemma_le_round_trip(v: u32, b: Seq<u8>, o: int)
    requires
        0 <= o,
        o + 4 <= b.len(),
        b.subrange(o, o + 4) == le_bytes(v),
    ensures
        le_u32(b, o) == v,
{
    reveal(le_bytes);
    assert(b[o] == le_bytes(v)[0]);
    assert(b[o + 1] == le_bytes(v)[1]);
    assert(b[o + 2] == le_bytes(v)[2]);
    assert(b[o + 3] == le_bytes(v)[3]);
    let x = v as int;
    assert(x % 0x100 + (x / 0x100 % 0x100) * 0x100 + (x / 0x1_0000 % 0x100) * 0x1_0000 + (x / 0x100_0000) * 0x100_0000 == x)
        by (nonlinear_arith)
        requires 0 <= x < 0x1_0000_0000;
}

proof fn lemma_face_record_len(m: MeshModel, normals: Seq<[u32; 3]>, t: int)
    ensures
        face_record(m, normals, t).len() == 50,
{
    let f = m.faces[t];
    lemma_triple_bytes_index(normals[t], 0, 0);
    lemma_triple_bytes_index(m.vertices[f[0] as int], 0, 0);
    lemma_triple_bytes_index(m.vertices[f[1] as int], 0, 0);
    lemma_triple_bytes_index(m.vertices[f[2] as int], 0, 0);
}

proof fn lemma_face_records_len(m: MeshModel, normals: Seq<[u32; 3]>, k: int)
    requires
        0 <= k,
    ensures
        face_records(m, normals, k).len() == 50 * k,
    decreases k,
{
    if k > 0 {
        lemma_face_records_len(m, normals, k - 1);
        lemma_face_record_len(m, normals, k - 1);
    }
}

proof fn lemma_face_records_index(m: MeshModel, normals: Seq<[u32; 3]>, k: int, t: int, r: int)
    requires
        0 <= t < k,
        0 <= r < 50,
    ensures
        face_records(m, normals, k).len() == 50 * k,
        face_records(m, normals, k)[50 * t + r] == face_record(m, normals, t)[r],
    decreases k,
{
    lemma_face_records_len(m, normals, k);
    lemma_face_records_len(m, normals, k - 1);
    if t < k - 1 {
        lemma_face_records_index(m, normals, k - 1, t, r);
    }
}

proof fn lemma_triple_bytes_index(v: [u32; 3], a: int, j: int)
    requires
        0 <= a < 3,
        0 <= j < 4,
    ensures
        triple_bytes(v).len() == 12,
        triple_bytes(v)[4 * a + j] == le_bytes(v[a])[j],
{
    lemma_le_bytes_len(v[0]);
    lemma_le_bytes_len(v[1]);
    lemma_le_bytes_len(v[2]);
}

proof fn lemma_face_record_index(m: MeshModel, normals: Seq<[u32; 3]>, t: int, c: int, a: int, j: int)
    requires
        0 <= c < 3,
        0 <= a < 3,
        0 <= j < 4,
    ensures
        face_record(m, normals, t).len() == 50,
        face_record(m, normals, t)[12 + 12 * c + 4 * a + j] == le_bytes(m.vertices[m.faces[t][c] as int][a])[j],
{
    let f = m.faces[t];
    let p0 = triple_bytes(normals[t]);
    let p1 = triple_bytes(m.vertices[f[0] as int]);
    let p2 = triple_bytes(m.vertices[f[1] as int]);
    let p3 = triple_bytes(m.vertices[f[2] as int]);
    lemma_triple_bytes_index(m.vertices[f[c] as int], a, j);
    lemma_triple_bytes_index(normals[t], 0, 0);
    lemma_triple_bytes_index(m.vertices[f[0] as int], 0, 0);
    lemma_triple_bytes_index(m.vertices[f[1] as int], 0, 0);
    lemma_triple_bytes_index(m.vertices[f[2] as int], 0, 0);
    let rec = p0 + p1 + p2 + p3 + seq![0u8, 0u8];
    assert(rec == face_record(m, normals, t));
    if c == 0 {
        assert(rec[12 + 4 * a + j] == p1[4 * a + j]);
    } else if c == 1 {
        assert(rec[24 + 4 * a + j] == p2[4 * a + j]);
    } else {
        assert(rec[36 + 4 * a + j] == p3[4 * a + j]);
    }
}

proof fn lemma_stl_body_index(m: MeshModel, normals: Seq<[u32; 3]>, x: int)
    requires
        0 <= x < 50 * m.faces.len(),
    ensures
        binary_stl_bytes(m, normals).len() == 84 + 50 * m.faces.len(),
        binary_stl_bytes(m, normals)[84 + x] == face_records(m, normals, m.faces.len() as int)[x],
{
    let pre = stl_header() + le_bytes(m.faces.len() as u32);
    let body = face_records(m, normals, m.faces.len() as int);
    lemma_le_bytes_len(m.faces.len() as u32);
    lemma_face_records_len(m, normals, m.faces.len() as int);
    assert(pre.len() == 84);
    assert(binary_stl_bytes(m, normals) == pre + body);
    assert((pre + body)[84 + x] == body[x]);
}

#[verifier::rlimit(50)]
proof fn lemma_written_coordinate(m: MeshModel, normals: Seq<[u32; 3]>, t: int, c: int, a: int)
    requires
        0 <= t < m.faces.len() <= u32::MAX,
        0 <= c < 3,
        0 <= a < 3,
    ensures
        le_u32(binary_stl_bytes(m, normals), 84 + 50 * t + 12 + 12 * c + 4 * a)
            == m.vertices[m.faces[t][c] as int][a],
{
    let b = binary_stl_bytes(m, normals);
    let n = m.faces.len() as int;
    let v = m.vertices[m.faces[t][c] as int];
    let o = 84 + 50 * t + 12 + 12 * c + 4 * a;
    let x0 = 50 * t + 12 + 12 * c + 4 * a;
    assert(x0 + 4 <= 50 * n) by (nonlinear_arith)
        requires x0 == 50 * t + 12 + 12 * c + 4 * a, 0 <= t < n, 0 <= c < 3, 0 <= a < 3;
    lemma_stl_body_index(m, normals, x0);
    lemma_le_bytes_len(v[a]);
    assert forall|j: int| 0 <= j < 4 implies #[trigger] b.subrange(o, o + 4)[j] == le_bytes(v[a])[j] by {
        lemma_stl_body_index(m, normals, x0 + j);
        lemma_face_records_index(m, normals, n, t, 12 + 12 * c + 4 * a + j);
        lemma_face_record_index(m, normals, t, c, a, j);
        assert(b.subrange(o, o + 4)[j] == b[o + j]);
    }
    assert(b.subrange(o, o + 4) =~= le_bytes(v[a]));
    lemma_le_round_trip(v[a], b, o);
}

/// The corners that a written STL holds are the mesh's corners.
#[verifier::spinoff_prover]
proof fn lemma_written_corner(m: MeshModel, normals: Seq<[u32; 3]>, k: int)
    requires
        0 <= k < 3 * m.faces.len(),
        m.faces.len() <= u32::MAX,
        binary_triangle_count(binary_stl_bytes(m, normals)) == m.faces.len(),
    ensures
        binary_corners(binary_stl_bytes(m, normals))[k] == m.vertices[m.faces[k / 3][k % 3] as int],
{
    let t = k / 3;
    let c = k % 3;
    lemma_written_coordinate(m, normals, t, c, 0);
    lemma_written_coordinate(m, normals, t, c, 1);
    lemma_written_coordinate(m, normals, t, c, 2);
    reveal(binary_corners);
    assert(binary_corner(binary_stl_bytes(m, normals), t, c) =~= m.vertices[m.faces[t][c] as int]);
}

/// What `write_binary_stl` writes reads back: the bytes are a binary STL with
/// one triangle per face, and every corner of every face reads back at the
/// same point as the mesh's corner.
pub proof fn law_written_stl_reads_back(m: MeshModel, normals: Seq<[u32; 3]>)
    requires
        m.faces.len() <= 0x5555_5554,
    ensures
        is_binary_stl(binary_stl_bytes(m, normals)),
        binary_stl_result(binary_stl_bytes(m, normals)) is Ok,
        ({
            let r = binary_stl_result(binary_stl_bytes(m, normals))->Ok_0;
            &&& r.faces.len() == m.faces.len()
            &&& forall|t: int, c: int|
                0 <= t < m.faces.len() && 0 <= c < 3 ==> vertex_identity(
                    r.vertices[#[trigger] r.faces[t][c] as int],
                ) == vertex_identity(m.vertices[m.faces[t][c] as int])
        }),
{
    let b = binary_stl_bytes(m, normals);
    let n = m.faces.len() as int;
    lemma_face_records_len(m, normals, n);
    lemma_le_bytes_len(n as u32);
    assert(b.subrange(80, 84) =~= le_bytes(n as u32));
    lemma_le_round_trip(n as u32, b, 80);
    assert(is_binary_stl(b));
    let corners = binary_corners(b);
    lemma_binary_corners_len(b);
    let r = mesh_of_corners(corners);
    lemma_distinct_vertices(corners);
    assert forall|t: int, c: int| 0 <= t < n && 0 <= c < 3 implies vertex_identity(
        r.vertices[#[trigger] r.faces[t][c] as int]) == vertex_identity(m.vertices[m.faces[t][c] as int]) by {
        let k = 3 * t + c;
        assert(k < corners.len());
        assert(k / 3 == t && k % 3 == c);
        lemma_corner_index(corners, k);
        lemma_written_corner(m, normals, k);
        lemma_distinct_vertices(corners);
        assert(r.faces[t][c] as int == corner_index(corners, k));
    }
}


proof fn lemma_face_record_normal(m: MeshModel, normals: Seq<[u32; 3]>, t: int, a: int, j: int)
    requires
        0 <= a < 3,
        0 <= j < 4,
    ensures
        face_record(m, normals, t).len() == 50,
        face_record(m, normals, t)[4 * a + j] == le_bytes(normals[t][a])[j],
        face_record(m, normals, t)[48] == 0,
        face_record(m, normals, t)[49] == 0,
{
    let f = m.faces[t];
    let nb = triple_bytes(normals[t]);
    let p1 = triple_bytes(m.vertices[f[0] as int]);
    let p2 = triple_bytes(m.vertices[f[1] as int]);
    let p3 = triple_bytes(m.vertices[f[2] as int]);
    lemma_triple_bytes_index(normals[t], a, j);
    lemma_triple_bytes_index(m.vertices[f[0] as int], 0, 0);
    lemma_triple_bytes_index(m.vertices[f[1] as int], 0, 0);
    lemma_triple_bytes_index(m.vertices[f[2] as int], 0, 0);
    let rec = nb + p1 + p2 + p3 + seq![0u8, 0u8];
    assert(rec == face_record(m, normals, t));
    assert(rec[4 * a + j] == nb[4 * a + j]);
    assert(rec[48] == 0u8);
    assert(rec[49] == 0u8);
}

/// The layout of a written binary STL: the face count after the 80-byte
/// header, then one 50-byte record per face holding, each as a little-endian
/// binary32, the x, y and z of the face's stored normal and then the x, y and
/// z of its three corners in order, followed by two zero bytes.
#[verifier::rlimit(50)]
pub proof fn law_written_records(m: MeshModel, normals: Seq<[u32; 3]>, t: int, a: int)
    requires
        0 <= t < m.faces.len() <= u32::MAX,
        0 <= a < 3,
    ensures
        binary_stl_bytes(m, normals).len() == 84 + 50 * m.faces.len(),
        le_u32(binary_stl_bytes(m, normals), 80) == m.faces.len(),
        le_u32(binary_stl_bytes(m, normals), 84 + 50 * t + 4 * a) == normals[t][a],
        forall|c: int|
            0 <= c < 3 ==> le_u32(binary_stl_bytes(m, normals), #[trigger] (84 + 50 * t + 12 + 12 * c + 4 * a))
                == m.vertices[m.faces[t][c] as int][a],
        binary_stl_bytes(m, normals)[84 + 50 * t + 48] == 0,
        binary_stl_bytes(m, normals)[84 + 50 * t + 49] == 0,
{
    let b = binary_stl_bytes(m, normals);
    let n = m.faces.len() as int;
    lemma_face_records_len(m, normals, n);
    lemma_le_bytes_len(n as u32);
    assert(b.subrange(80, 84) =~= le_bytes(n as u32));
    lemma_le_round_trip(n as u32, b, 80);
    let v = normals[t][a];
    let o = 84 + 50 * t + 4 * a;
    let x0 = 50 * t + 4 * a;
    assert(x0 + 4 <= 50 * n) by (nonlinear_arith)
        requires x0 == 50 * t + 4 * a, 0 <= t < n, 0 <= a < 3;
    assert(50 * t + 50 <= 50 * n) by (nonlinear_arith)
        requires 0 <= t < n;
    lemma_stl_body_index(m, normals, x0);
    lemma_le_bytes_len(v);
    assert forall|j: int| 0 <= j < 4 implies #[trigger] b.subrange(o, o + 4)[j] == le_bytes(v)[j] by {
        lemma_stl_body_index(m, normals, x0 + j);
        lemma_face_records_index(m, normals, n, t, 4 * a + j);
        lemma_face_record_normal(m, normals, t, a, j);
        assert(b.subrange(o, o + 4)[j] == b[o + j]);
    }
    assert(b.subrange(o, o + 4) =~= le_bytes(v));
    lemma_le_round_trip(v, b, o);
    lemma_stl_body_index(m, normals, 50 * t + 48);
    lemma_stl_body_index(m, normals, 50 * t + 49);
    lemma_face_records_index(m, normals, n, t, 48);
    lemma_face_records_index(m, normals, n, t, 49);
    lemma_face_record_normal(m, normals, t, 0, 0);
    assert forall|c: int|
        0 <= c < 3 implies le_u32(b, #[trigger] (84 + 50 * t + 12 + 12 * c + 4 * a)) == m.vertices[m.faces[t][c] as int][a] by {
        lemma_written_coordinate(m, normals, t, c, a);
    }
}


/// Reading binary STL bytes succeeds exactly when there are at least 84 bytes
/// and the length is 84 plus 50 per announced triangle; the mesh then has one
/// face per triangle, and corner `c` of face `t` lies at the three
/// little-endian binary32 values that follow the triangle's 12-byte normal
/// and the earlier corners, x, y and z in that order (`-0.0` counted as `0.0`).
pub proof fn law_binary_corners_come_from_records(b: Seq<u8>)
    requires
        readable_size(b.len() as int),
    ensures
        binary_stl_result(b) is Ok <==> (b.len() >= 84 && b.len() == 84 + 50 * le_u32(b, 80)),
        binary_stl_result(b) is Ok ==> ({
            let r = binary_stl_result(b)->Ok_0;
            &&& r.faces.len() == le_u32(b, 80)
            &&& forall|t: int, c: int|
                0 <= t < r.faces.len() && 0 <= c < 3 ==> (#[trigger] r.faces[t][c]) < r.vertices.len() && vertex_identity(
                    r.vertices[r.faces[t][c] as int],
                ) == vertex_identity(
                    [
                        le_u32(b, 84 + 50 * t + 12 + 12 * c),
                        le_u32(b, 84 + 50 * t + 12 + 12 * c + 4),
                        le_u32(b, 84 + 50 * t + 12 + 12 * c + 8),
                    ],
                )
        }),
{
    if binary_stl_result(b) is Ok {
        let corners = binary_corners(b);
        lemma_binary_corners_len(b);
        let n = le_u32(b, 80) as int;
        assert(3 * n <= u32::MAX) by (nonlinear_arith)
            requires b.len() == 84 + 50 * n, b.len() <= 84 + 50 * 0x5555_5554, 0 <= n;
        law_read_mesh_is_deduplicated(corners);
        let r = mesh_of_corners(corners);
        assert forall|t: int, c: int| 0 <= t < r.faces.len() && 0 <= c < 3 implies (#[trigger] r.faces[t][c]) < r.vertices.len()
            && vertex_identity(r.vertices[r.faces[t][c] as int]) == vertex_identity(
            [
                le_u32(b, 84 + 50 * t + 12 + 12 * c),
                le_u32(b, 84 + 50 * t + 12 + 12 * c + 4),
                le_u32(b, 84 + 50 * t + 12 + 12 * c + 8),
            ],
        ) by {
            let k = 3 * t + c;
            assert(k / 3 == t && k % 3 == c);
            reveal(binary_corners);
            assert(corners[k] == binary_corner(b, t, c));
        }
    }
}

} // verus!
