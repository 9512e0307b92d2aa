use meshlint_core::ascii::{ascii_vertex_lines, assemble_ascii_stl, Coordinate};
use meshlint_core::ieee::{f32_less, f32_less_eq, normalized_f32_bits};
use meshlint_core::stl::{looks_like_binary_stl, mesh_from_corners, parse_binary_stl, write_binary_stl};
use meshlint_core::text::decimal_string;
use meshlint_core::{Mesh, MeshLintError};

fn coordinate(word: Option<&String>) -> Coordinate {
    match word {
        None => Coordinate::Missing,
        Some(w) => match w.parse::<f32>() {
            Ok(v) => Coordinate::Value(v.to_bits()),
            Err(_) => Coordinate::Invalid,
        },
    }
}

fn read_ascii(bytes: &[u8]) -> Result<Mesh, MeshLintError> {
    let lines = ascii_vertex_lines(bytes)?;
    let coords: Vec<[Coordinate; 3]> = lines
        .iter()
        .map(|l| [coordinate(l.get(0)), coordinate(l.get(1)), coordinate(l.get(2))])
        .collect();
    assemble_ascii_stl(&coords)
}

fn bits(v: [f32; 3]) -> [u32; 3] {
    [v[0].to_bits(), v[1].to_bits(), v[2].to_bits()]
}

fn binary_stl(triangles: &[[[f32; 3]; 3]]) -> Vec<u8> {
    let mut out = vec![0u8; 80];
    out.extend_from_slice(&(triangles.len() as u32).to_le_bytes());
    for t in triangles {
        for _ in 0..3 {
            out.extend_from_slice(&0f32.to_le_bytes());
        }
        for v in t {
            for c in v {
                out.extend_from_slice(&c.to_le_bytes());
            }
        }
        out.extend_from_slice(&[0u8, 0u8]);
    }
    out
}

fn message(e: &MeshLintError) -> String {
    e.message()
}

#[test]
fn parses_ascii_stl() {
    let bytes = b"solid t
facet normal 0 0 1
outer loop
vertex 0 0 0
vertex 1 0 0
vertex 0 1 0
endloop
endfacet
endsolid t";
    let mesh = read_ascii(bytes).unwrap();
    assert_eq!(mesh.faces.len(), 1);
    assert_eq!(mesh.vertices.len(), 3);
}

#[test]
fn ascii_shares_repeated_points_and_zero_signs() {
    let bytes = b"solid t\nvertex 0 0 0\nvertex 1 0 0\nvertex 0 1 0\nvertex -0 0 0\nvertex 0 1 0\nvertex 0 0 1\nendsolid t";
    let mesh = read_ascii(bytes).unwrap();
    assert_eq!(mesh.faces, vec![[0, 1, 2], [0, 2, 3]]);
    assert_eq!(mesh.vertices.len(), 4);
    assert_eq!(mesh.vertices[3], bits([0.0, 0.0, 1.0]));
}

#[test]
fn ascii_keeps_vertex_of_incomplete_trailing_triangle() {
    let bytes = b"vertex 0 0 0\nvertex 1 0 0\nvertex 0 1 0\nvertex 5 5 5\n";
    let mesh = read_ascii(bytes).unwrap();
    assert_eq!(mesh.faces.len(), 1);
    assert_eq!(mesh.vertices.len(), 4);
}

#[test]
fn ascii_vertex_words_are_split_on_white_space() {
    let lines = ascii_vertex_lines(b"  vertex\t1.5   -2e3 7\r\nfacet normal 0 0 1\nvertex 1 2\n").unwrap();
    assert_eq!(lines, vec![vec!["1.5".to_string(), "-2e3".to_string(), "7".to_string()], vec!["1".to_string(), "2".to_string()]]);
}

#[test]
fn ascii_errors_are_reported() {
    let missing = read_ascii(b"vertex 0 0\n").unwrap_err();
    assert_eq!(message(&missing), "invalid STL: missing z coordinate");
    let invalid = read_ascii(b"vertex 0 abc 0\n").unwrap_err();
    assert_eq!(message(&invalid), "invalid STL: invalid y coordinate");
    let none = read_ascii(b"solid empty\nendsolid empty\n").unwrap_err();
    assert_eq!(message(&none), "invalid STL: no triangles found");
    let not_text = read_ascii(&[0xff, 0xfe, 0x00]).unwrap_err();
    assert_eq!(message(&not_text), "invalid STL: ASCII STL is not valid UTF-8");
}

#[test]
fn binary_layout_is_recognised() {
    let one = binary_stl(&[[[0.0, 0.0, 0.0], [1.0, 0.0, 0.0], [0.0, 1.0, 0.0]]]);
    assert_eq!(one.len(), 134);
    assert!(looks_like_binary_stl(&one));
    assert!(!looks_like_binary_stl(&one[..133]));
    assert!(!looks_like_binary_stl(b"solid t\nendsolid t\n"));
    assert!(looks_like_binary_stl(&binary_stl(&[])));
}

#[test]
fn binary_stl_is_read() {
    let bytes = binary_stl(&[
        [[0.0, 0.0, 0.0], [1.0, 0.0, 0.0], [0.0, 1.0, 0.0]],
        [[0.0, 0.0, 0.0], [0.0, 1.0, 0.0], [-0.0, 0.0, 2.0]],
    ]);
    let mesh = parse_binary_stl(&bytes).unwrap();
    assert_eq!(mesh.faces, vec![[0, 1, 2], [0, 2, 3]]);
    assert_eq!(mesh.vertices, vec![bits([0.0, 0.0, 0.0]), bits([1.0, 0.0, 0.0]), bits([0.0, 1.0, 0.0]), bits([-0.0, 0.0, 2.0])]);
}

#[test]
fn truncated_binary_stl_is_refused() {
    let header = parse_binary_stl(&[0u8; 40]).unwrap_err();
    assert_eq!(message(&header), "invalid STL: binary header is truncated");
    let mut bytes = binary_stl(&[[[0.0, 0.0, 0.0], [1.0, 0.0, 0.0], [0.0, 1.0, 0.0]]]);
    bytes.pop();
    let body = parse_binary_stl(&bytes).unwrap_err();
    assert_eq!(message(&body), "invalid STL: binary triangle data is truncated");
}

#[test]
fn written_stl_reads_back() {
    let mesh = mesh_from_corners(&vec![
        bits([0.0, 0.0, 0.0]),
        bits([1.0, 0.0, 0.0]),
        bits([0.0, 1.0, 0.0]),
        bits([0.0, 0.0, 1.0]),
        bits([1.0, 0.0, 0.0]),
        bits([0.0, 1.0, 0.0]),
    ]);
    let normals = vec![bits([0.0, 0.0, 1.0]), bits([0.5, 0.5, 0.5])];
    let bytes = write_binary_stl(&mesh, &normals).unwrap();
    assert_eq!(bytes.len(), 84 + 2 * 50);
    assert_eq!(&bytes[..22], b"meshlint fixed binary ");
    assert!(bytes[22..80].iter().all(|b| *b == 0));
    assert_eq!(u32::from_le_bytes(bytes[80..84].try_into().unwrap()), 2);
    assert_eq!(f32::from_le_bytes(bytes[84 + 50 + 4..84 + 50 + 8].try_into().unwrap()), 0.5);
    assert_eq!(&bytes[132..134], &[0u8, 0u8]);
    let back = parse_binary_stl(&bytes).unwrap();
    assert_eq!(back.faces, mesh.faces);
    assert_eq!(back.vertices, mesh.vertices);
}

#[test]
fn corners_become_shared_vertices() {
    let mesh = mesh_from_corners(&vec![
        bits([1.0, 2.0, 3.0]),
        bits([4.0, 5.0, 6.0]),
        bits([1.0, 2.0, 3.0]),
    ]);
    assert_eq!(mesh.faces, vec![[0, 1, 0]]);
    assert_eq!(mesh.vertices.len(), 2);
}

#[test]
fn binary32_order_matches_hardware() {
    let values = [0.0f32, -0.0, 1.0, -1.0, 0.5, 1e-30, -1e30, f32::INFINITY, f32::NEG_INFINITY, f32::NAN, f32::EPSILON, f32::MIN_POSITIVE];
    for a in values {
        for b in values {
            assert_eq!(f32_less(a.to_bits(), b.to_bits()), a < b, "{a} < {b}");
            assert_eq!(f32_less_eq(a.to_bits(), b.to_bits()), a <= b, "{a} <= {b}");
        }
    }
}

#[test]
fn negative_zero_is_normalized() {
    assert_eq!(normalized_f32_bits((-0.0f32).to_bits()), 0);
    assert_eq!(normalized_f32_bits(1.5f32.to_bits()), 1.5f32.to_bits());
    assert_eq!(normalized_f32_bits((-2.0f32).to_bits()), (-2.0f32).to_bits());
}

#[test]
fn decimal_spelling() {
    assert_eq!(decimal_string(0), "0");
    assert_eq!(decimal_string(7), "7");
    assert_eq!(decimal_string(12482), "12482");
    assert_eq!(decimal_string(u64::MAX), "18446744073709551615");
}

#[test]
fn error_messages() {
    assert_eq!(MeshLintError::UnsupportedFormat("obj".to_string()).message(), "unsupported mesh format: obj");
    assert_eq!(MeshLintError::InvalidStl("x".to_string()).message(), "invalid STL: x");
    assert_eq!(MeshLintError::MeshTooLarge.message(), "mesh is too large for binary STL output");
}
