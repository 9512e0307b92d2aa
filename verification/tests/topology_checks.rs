use meshlint_core::boundary::check_boundary_loops;
use meshlint_core::checks::{
    check_degenerate_faces, check_duplicate_faces, check_inverted_normals, check_non_manifold, check_normal_consistency,
    collect_boundary_edges, self_intersection_finding,
};
use meshlint_core::{canonical_edge, face_edges, faces_share_vertex, shared_edge_same_direction};
use meshlint_core::{Finding, MetricValue, Severity};

fn tetra() -> Vec<[u32; 3]> {
    vec![[0, 2, 1], [0, 1, 3], [1, 2, 3], [0, 3, 2]]
}

fn metric(f: &Finding, name: &str) -> MetricValue {
    f.metrics.iter().find(|m| m.name == name).map(|m| m.value).unwrap()
}

fn metric_names(f: &Finding) -> Vec<String> {
    f.metrics.iter().map(|m| m.name.clone()).collect()
}

#[test]
fn face_edges_follow_winding() {
    assert_eq!(face_edges([1, 2, 3]), [(1, 2), (2, 3), (3, 1)]);
    assert_eq!(canonical_edge((5, 2)), (2, 5));
    assert_eq!(canonical_edge((2, 5)), (2, 5));
    assert_eq!(canonical_edge((4, 4)), (4, 4));
}

#[test]
fn shared_edge_direction_and_vertices() {
    assert!(shared_edge_same_direction([0, 1, 2], [0, 1, 3]));
    assert!(!shared_edge_same_direction([0, 1, 2], [1, 0, 3]));
    assert!(!shared_edge_same_direction([0, 1, 2], [3, 4, 5]));
    assert!(faces_share_vertex([0, 1, 2], [3, 4, 2]));
    assert!(!faces_share_vertex([0, 1, 2], [3, 4, 5]));
}

#[test]
fn closed_tetrahedron_has_no_topology_findings() {
    let faces = tetra();
    assert!(check_non_manifold(&faces).is_empty());
    assert!(check_normal_consistency(&faces).is_empty());
    assert!(check_duplicate_faces(&faces).is_empty());
    assert!(collect_boundary_edges(&faces).is_empty());
    assert!(check_boundary_loops(&faces).is_empty());
}

#[test]
fn open_triangle_edges_are_non_manifold() {
    let r = check_non_manifold(&vec![[0, 1, 2]]);
    let messages: Vec<&str> = r.iter().map(|f| f.message.as_str()).collect();
    assert_eq!(messages, vec![
        "edge 0-1 is shared by 1 faces; expected 2",
        "edge 0-2 is shared by 1 faces; expected 2",
        "edge 1-2 is shared by 1 faces; expected 2",
    ]);
    assert_eq!(r[0].rule_id, "mesh/non-manifold");
    assert_eq!(r[0].severity, Severity::Error);
    assert_eq!(r[0].face_ids, vec![0]);
    assert_eq!(metric_names(&r[0]), vec!["vertex_a", "vertex_b", "faces"]);
    assert_eq!(metric(&r[2], "vertex_a"), MetricValue::Count(1));
    assert_eq!(metric(&r[2], "vertex_b"), MetricValue::Count(2));
    assert_eq!(metric(&r[2], "faces"), MetricValue::Count(1));
    assert_eq!(r[0].recommendation.as_deref(), Some("Repair open boundaries, duplicate surfaces, or T-junctions before printing."));
}

#[test]
fn extra_face_makes_three_way_edge() {
    let mut faces = tetra();
    faces.push([0, 1, 4]);
    let r = check_non_manifold(&faces);
    assert_eq!(r.len(), 3);
    assert_eq!(r[0].message, "edge 0-1 is shared by 3 faces; expected 2");
    assert_eq!(r[0].face_ids, vec![0, 1, 4]);
    assert_eq!(r[1].message, "edge 0-4 is shared by 1 faces; expected 2");
    assert_eq!(r[2].message, "edge 1-4 is shared by 1 faces; expected 2");
}

#[test]
fn flipped_face_is_inconsistent() {
    let faces = vec![[0, 2, 1], [0, 1, 3], [1, 2, 3], [0, 2, 3]];
    let r = check_normal_consistency(&faces);
    let messages: Vec<&str> = r.iter().map(|f| f.message.as_str()).collect();
    assert_eq!(messages, vec![
        "faces 0 and 3 traverse shared edge 0-2 in the same direction",
        "faces 1 and 3 traverse shared edge 0-3 in the same direction",
        "faces 2 and 3 traverse shared edge 2-3 in the same direction",
    ]);
    assert_eq!(r[1].face_ids, vec![1, 3]);
    assert_eq!(r[0].severity, Severity::Warn);
    assert_eq!(r[0].rule_id, "mesh/inconsistent-normals");
    assert_eq!(metric(&r[2], "vertex_a"), MetricValue::Count(2));
    assert_eq!(metric(&r[2], "vertex_b"), MetricValue::Count(3));
}

#[test]
fn duplicates_name_the_first_face() {
    let faces = vec![[0, 1, 2], [2, 1, 0], [0, 1, 3], [1, 0, 2]];
    let r = check_duplicate_faces(&faces);
    assert_eq!(r.len(), 2);
    assert_eq!(r[0].message, "face 1 duplicates face 0");
    assert_eq!(r[0].face_ids, vec![0, 1]);
    assert_eq!(r[1].message, "face 3 duplicates face 0");
    assert_eq!(metric(&r[1], "original_face"), MetricValue::Count(0));
    assert_eq!(metric(&r[1], "duplicate_face"), MetricValue::Count(3));
    assert_eq!(r[1].rule_id, "mesh/duplicate-face");
    assert_eq!(r[1].severity, Severity::Warn);
}

#[test]
fn degenerate_faces_by_vertex_or_area() {
    let faces = vec![[0, 0, 1], [0, 1, 2], [0, 1, 2], [0, 1, 2], [0, 1, 2]];
    let areas = vec![0.5f32.to_bits(), 1e-8f32.to_bits(), 1.0f32.to_bits(), f32::NAN.to_bits(), f32::EPSILON.to_bits()];
    let r = check_degenerate_faces(&faces, &areas);
    let ids: Vec<Vec<u32>> = r.iter().map(|f| f.face_ids.clone()).collect();
    assert_eq!(ids, vec![vec![0], vec![1], vec![3], vec![4]]);
    assert_eq!(r[0].message, "face 0 is degenerate");
    assert_eq!(metric(&r[0], "repeated_vertex"), MetricValue::Count(1));
    assert_eq!(metric(&r[1], "repeated_vertex"), MetricValue::Count(0));
    assert_eq!(metric(&r[1], "area_mm2"), MetricValue::Single(1e-8f32.to_bits()));
    assert_eq!(r[0].rule_id, "mesh/degenerate-face");
    assert_eq!(r[0].severity, Severity::Error);
}

#[test]
fn inverted_winding_by_signed_volume() {
    let r = check_inverted_normals((-2.5f32).to_bits());
    assert_eq!(r.len(), 1);
    assert_eq!(r[0].message, "mesh winding appears globally inverted");
    assert_eq!(r[0].rule_id, "mesh/inverted-normals");
    assert_eq!(metric(&r[0], "signed_volume_mm3"), MetricValue::Single((-2.5f32).to_bits()));
    assert!(r[0].face_ids.is_empty());
    assert!(check_inverted_normals(0.0f32.to_bits()).is_empty());
    assert!(check_inverted_normals((-0.0f32).to_bits()).is_empty());
    assert!(check_inverted_normals(3.0f32.to_bits()).is_empty());
    assert_eq!(check_inverted_normals(f32::NAN.to_bits()).len(), 1);
}

#[test]
fn boundary_edges_of_open_triangle() {
    let es = collect_boundary_edges(&vec![[2, 0, 1]]);
    let edges: Vec<((u32, u32), u32)> = es.iter().map(|e| (e.edge, e.face_id)).collect();
    assert_eq!(edges, vec![((0, 1), 0), ((0, 2), 0), ((1, 2), 0)]);
}

#[test]
fn open_triangle_is_one_closed_boundary_loop() {
    let r = check_boundary_loops(&vec![[0, 1, 2]]);
    assert_eq!(r.len(), 1);
    assert_eq!(r[0].message, "boundary loop 0 has 3 edges; mesh surface is open");
    assert_eq!(r[0].face_ids, vec![0]);
    assert_eq!(r[0].rule_id, "mesh/boundary-loop");
    assert_eq!(r[0].severity, Severity::Error);
    assert_eq!(metric(&r[0], "component"), MetricValue::Count(0));
    assert_eq!(metric(&r[0], "edges"), MetricValue::Count(3));
    assert_eq!(metric(&r[0], "vertices"), MetricValue::Count(3));
    assert_eq!(metric(&r[0], "closed"), MetricValue::Count(1));
}

#[test]
fn bowtie_boundary_is_open_component() {
    let r = check_boundary_loops(&vec![[0, 1, 2], [0, 3, 4]]);
    assert_eq!(r.len(), 1);
    assert_eq!(r[0].message, "open boundary component 0 has 6 edges and 5 vertices");
    assert_eq!(r[0].face_ids, vec![0, 1]);
    assert_eq!(metric(&r[0], "closed"), MetricValue::Count(0));
}

#[test]
fn separate_holes_are_separate_loops() {
    let r = check_boundary_loops(&vec![[3, 4, 5], [0, 1, 2]]);
    assert_eq!(r.len(), 2);
    assert_eq!(r[0].face_ids, vec![1]);
    assert_eq!(r[1].face_ids, vec![0]);
    assert_eq!(r[1].message, "boundary loop 1 has 3 edges; mesh surface is open");
}

#[test]
fn crossing_faces_finding() {
    let f = self_intersection_finding(120, 844);
    assert_eq!(f.message, "faces 120 and 844 intersect");
    assert_eq!(f.face_ids, vec![120, 844]);
    assert_eq!(f.rule_id, "mesh/self-intersection");
    assert_eq!(f.severity, Severity::Error);
    assert_eq!(metric(&f, "face_a"), MetricValue::Count(120));
    assert_eq!(metric(&f, "face_b"), MetricValue::Count(844));
}
