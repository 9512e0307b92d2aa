use meshlint_core::repair::{
    apply_vertex_merge, finish_orientation, fix_with_count, orient_faces_locally, remove_degenerate_faces,
    remove_duplicate_faces, remove_tiny_shells, remove_unreferenced_vertices,
};
use meshlint_core::checks::{check_degenerate_faces, check_duplicate_faces, check_normal_consistency};
use meshlint_core::shells::{check_shells, connected_shells, face_adjacency, primary_shell_index};
use meshlint_core::{Fix, Mesh, MetricValue, Severity};

fn v(x: f32, y: f32, z: f32) -> [u32; 3] {
    [x.to_bits(), y.to_bits(), z.to_bits()]
}

fn count_metric(fix: &Fix) -> MetricValue {
    fix.metrics[0].value
}

#[test]
fn removes_duplicate_vertices_and_degenerate_faces() {
    let mut mesh = Mesh { vertices: vec![v(0.0, 0.0, 0.0), v(0.0, 0.0, 0.0), v(1.0, 0.0, 0.0)], faces: vec![[0, 1, 2]] };
    let mut fixes = apply_vertex_merge(&mut mesh, &vec![0, 0, 1], vec![v(0.0, 0.0, 0.0), v(1.0, 0.0, 0.0)], "0.0100");
    fixes.extend(remove_degenerate_faces(&mut mesh, &vec![0.0f32.to_bits()]));
    assert!(fixes.iter().any(|fix| fix.rule_id == "fix/weld-vertices"));
    assert!(mesh.faces.is_empty());
}

#[test]
fn weld_renumbers_faces() {
    let mut mesh = Mesh {
        vertices: vec![v(0.0, 0.0, 0.0), v(1.0, 0.0, 0.0), v(0.0, 1.0, 0.0), v(1.0, 0.0, 0.001)],
        faces: vec![[0, 1, 2], [3, 2, 1]],
    };
    let fixes = apply_vertex_merge(&mut mesh, &vec![0, 1, 2, 1], vec![v(0.0, 0.0, 0.0), v(1.0, 0.0, 0.0), v(0.0, 1.0, 0.0)], "0.0100");
    assert_eq!(mesh.faces, vec![[0, 1, 2], [1, 2, 1]]);
    assert_eq!(mesh.vertices.len(), 3);
    assert_eq!(fixes.len(), 1);
    assert_eq!(fixes[0].message, "merged 1 vertices within 0.0100 mm");
    assert_eq!(fixes[0].metrics[0].name, "vertices");
    assert_eq!(count_metric(&fixes[0]), MetricValue::Count(1));
    let same = mesh.vertices.clone();
    let none = apply_vertex_merge(&mut mesh, &vec![0, 1, 2], same, "0.0100");
    assert!(none.is_empty());
}

#[test]
fn degenerate_removal_keeps_positive_area() {
    let mut mesh = Mesh { vertices: vec![v(0.0, 0.0, 0.0), v(1.0, 0.0, 0.0), v(0.0, 1.0, 0.0)], faces: vec![[0, 1, 2], [0, 0, 1], [0, 1, 2], [2, 1, 0]] };
    let areas = vec![0.5f32.to_bits(), 0.5f32.to_bits(), 0.0f32.to_bits(), f32::NAN.to_bits()];
    let fixes = remove_degenerate_faces(&mut mesh, &areas);
    assert_eq!(mesh.faces, vec![[0, 1, 2]]);
    assert_eq!(fixes[0].rule_id, "fix/remove-degenerate-faces");
    assert_eq!(fixes[0].message, "removed 3 degenerate faces");
    assert_eq!(count_metric(&fixes[0]), MetricValue::Count(3));
}

#[test]
fn duplicate_removal_keeps_first_of_each_vertex_set() {
    let mut mesh = Mesh { vertices: vec![v(0.0, 0.0, 0.0); 4], faces: vec![[0, 1, 2], [2, 1, 0], [0, 1, 3], [1, 0, 2], [3, 1, 0]] };
    let fixes = remove_duplicate_faces(&mut mesh);
    assert_eq!(mesh.faces, vec![[0, 1, 2], [0, 1, 3]]);
    assert_eq!(fixes[0].message, "removed 3 duplicate faces");
    assert!(check_duplicate_faces(&mesh.faces).is_empty());
    assert!(remove_duplicate_faces(&mut mesh).is_empty());
    assert_eq!(mesh.faces, vec![[0, 1, 2], [0, 1, 3]]);
}

#[test]
fn orientation_rewinds_flipped_face() {
    let mut faces = vec![[0, 2, 1], [0, 1, 3], [1, 2, 3], [0, 2, 3]];
    let flipped = orient_faces_locally(&mut faces);
    assert_eq!(flipped, vec![false, false, false, true]);
    assert_eq!(faces, vec![[0, 2, 1], [0, 1, 3], [1, 2, 3], [0, 3, 2]]);
    assert!(check_normal_consistency(&faces).is_empty());
    let fixes = finish_orientation(&mut faces, &flipped, 1.0f32.to_bits());
    assert_eq!(fixes.len(), 1);
    assert_eq!(fixes[0].rule_id, "fix/orient-faces");
    assert_eq!(fixes[0].message, "rewound 1 faces for consistent normals");
}

#[test]
fn consistent_mesh_is_left_alone() {
    let mut faces = vec![[0, 2, 1], [0, 1, 3], [1, 2, 3], [0, 3, 2]];
    let flipped = orient_faces_locally(&mut faces);
    assert!(flipped.iter().all(|f| !f));
    assert_eq!(faces, vec![[0, 2, 1], [0, 1, 3], [1, 2, 3], [0, 3, 2]]);
    assert!(finish_orientation(&mut faces, &flipped, 0.0f32.to_bits()).is_empty());
}

#[test]
fn inverted_mesh_is_turned_outward() {
    let mut faces = vec![[0, 1, 2], [0, 3, 1], [1, 3, 2], [0, 2, 3]];
    let flipped = orient_faces_locally(&mut faces);
    let fixes = finish_orientation(&mut faces, &flipped, (-1.0f32).to_bits());
    assert_eq!(faces, vec![[0, 2, 1], [0, 1, 3], [1, 2, 3], [0, 3, 2]]);
    assert_eq!(fixes[0].message, "rewound 4 faces for consistent normals");
    assert_eq!(count_metric(&fixes[0]), MetricValue::Count(4));
}

#[test]
fn shells_are_connected_faces() {
    let faces = vec![[0, 1, 2], [3, 4, 5], [1, 2, 6], [4, 5, 7], [8, 9, 10]];
    let shells = connected_shells(&faces);
    assert_eq!(shells, vec![vec![0, 2], vec![1, 3], vec![4]]);
    let adj = face_adjacency(&faces);
    assert_eq!(adj[0], vec![2]);
    assert!(adj[4].is_empty());
}

#[test]
fn primary_shell_prefers_size_then_faces_then_later() {
    let shells = vec![vec![0, 1], vec![2], vec![3, 4]];
    assert_eq!(primary_shell_index(&shells, &vec![2.0f32.to_bits(), 5.0f32.to_bits(), 1.0f32.to_bits()]), Some(1));
    assert_eq!(primary_shell_index(&shells, &vec![5.0f32.to_bits(), 5.0f32.to_bits(), 1.0f32.to_bits()]), Some(0));
    assert_eq!(primary_shell_index(&shells, &vec![5.0f32.to_bits(), 1.0f32.to_bits(), 5.0f32.to_bits()]), Some(2));
    assert_eq!(primary_shell_index(&shells, &vec![f32::NAN.to_bits(), 1.0f32.to_bits(), 0.5f32.to_bits()]), Some(2));
    assert_eq!(primary_shell_index(&vec![], &vec![]), None);
}

#[test]
fn loose_shells_are_reported() {
    let shells = vec![vec![0, 1, 2, 3], vec![4, 5, 6, 7], vec![8, 9]];
    let sizes = vec![10.0f32.to_bits(), 0.5f32.to_bits(), 3.0f32.to_bits()];
    let r = check_shells(&shells, &sizes, 1.0f32.to_bits(), "1.000");
    assert_eq!(r.len(), 3);
    assert_eq!(r[0].rule_id, "mesh/tiny-shell");
    assert_eq!(r[0].message, "shell 1 has 4 faces and is below 1.000 mm3");
    assert_eq!(r[0].face_ids, vec![4, 5, 6, 7]);
    assert_eq!(r[1].rule_id, "mesh/disconnected-shell");
    assert_eq!(r[1].message, "shell 2 is disconnected from the primary shell and has 2 faces");
    assert_eq!(r[2].rule_id, "mesh/disconnected-shells-summary");
    assert_eq!(r[2].severity, Severity::Info);
    assert_eq!(r[2].message, "mesh contains 3 disconnected shells");
    assert!(r[2].recommendation.is_none());
    let single = check_shells(&vec![vec![0]], &vec![0.0f32.to_bits()], 1.0f32.to_bits(), "1.000");
    assert!(single.is_empty());
}

#[test]
fn tiny_shells_are_removed_with_their_vertices() {
    let mut mesh = Mesh {
        vertices: vec![v(0.0, 0.0, 0.0), v(1.0, 0.0, 0.0), v(0.0, 1.0, 0.0), v(5.0, 5.0, 5.0), v(6.0, 5.0, 5.0), v(5.0, 6.0, 5.0)],
        faces: vec![[3, 4, 5], [0, 1, 2]],
    };
    let shells = vec![vec![0], vec![1]];
    let sizes = vec![0.1f32.to_bits(), 2.0f32.to_bits()];
    let fixes = remove_tiny_shells(&mut mesh, &shells, &sizes, 1.0f32.to_bits());
    assert_eq!(mesh.faces, vec![[0, 1, 2]]);
    assert_eq!(mesh.vertices, vec![v(0.0, 0.0, 0.0), v(1.0, 0.0, 0.0), v(0.0, 1.0, 0.0)]);
    assert_eq!(fixes[0].rule_id, "fix/remove-tiny-shells");
    assert_eq!(fixes[0].message, "removed 1 faces from tiny disconnected shells");
}

#[test]
fn unreferenced_vertices_are_dropped_in_first_use_order() {
    let mut mesh = Mesh { vertices: vec![v(0.0, 0.0, 0.0), v(1.0, 0.0, 0.0), v(2.0, 0.0, 0.0), v(3.0, 0.0, 0.0)], faces: vec![[3, 1, 3]] };
    remove_unreferenced_vertices(&mut mesh);
    assert_eq!(mesh.faces, vec![[0, 1, 0]]);
    assert_eq!(mesh.vertices, vec![v(3.0, 0.0, 0.0), v(1.0, 0.0, 0.0)]);
}

#[test]
fn fix_record_with_count() {
    let f = fix_with_count("fix/x", "did 5 things".to_string(), "things", 5);
    assert_eq!(f.rule_id, "fix/x");
    assert_eq!(f.message, "did 5 things");
    assert_eq!(f.metrics.len(), 1);
    assert_eq!(f.metrics[0].name, "things");
    assert_eq!(f.metrics[0].value, MetricValue::Count(5));
}

#[test]
fn no_degenerate_faces_remain_after_removal() {
    let mut mesh = Mesh { vertices: vec![v(0.0, 0.0, 0.0), v(1.0, 0.0, 0.0), v(0.0, 1.0, 0.0), v(0.0, 0.0, 1.0)], faces: vec![[0, 1, 2], [1, 1, 3], [0, 1, 3], [0, 2, 3]] };
    let areas = vec![0.5f32.to_bits(), 0.5f32.to_bits(), 0.0f32.to_bits(), 0.5f32.to_bits()];
    remove_degenerate_faces(&mut mesh, &areas);
    assert_eq!(mesh.faces, vec![[0, 1, 2], [0, 2, 3]]);
    let kept_areas = vec![0.5f32.to_bits(), 0.5f32.to_bits()];
    assert!(meshlint_core::checks::check_degenerate_faces(&mesh.faces, &kept_areas).is_empty());
}

#[test]
fn primary_shell_survives_even_when_tiny() {
    let mut mesh = Mesh {
        vertices: vec![v(0.0, 0.0, 0.0), v(1.0, 0.0, 0.0), v(0.0, 1.0, 0.0), v(5.0, 5.0, 5.0), v(6.0, 5.0, 5.0), v(5.0, 6.0, 5.0)],
        faces: vec![[0, 1, 2], [3, 4, 5]],
    };
    let shells = vec![vec![0], vec![1]];
    let sizes = vec![0.25f32.to_bits(), 0.5f32.to_bits()];
    let fixes = remove_tiny_shells(&mut mesh, &shells, &sizes, 1.0f32.to_bits());
    assert_eq!(mesh.faces, vec![[0, 1, 2]]);
    assert_eq!(mesh.vertices, vec![v(5.0, 5.0, 5.0), v(6.0, 5.0, 5.0), v(5.0, 6.0, 5.0)]);
    assert_eq!(fixes[0].message, "removed 1 faces from tiny disconnected shells");
}

#[test]
fn shells_do_not_depend_on_the_call() {
    let faces = vec![[0, 1, 2], [5, 6, 7], [2, 1, 3], [7, 6, 8], [3, 1, 4]];
    let a = connected_shells(&faces);
    let b = connected_shells(&faces);
    assert_eq!(a, b);
    assert_eq!(a.len(), 2);
    assert_eq!(a[0][0], 0);
    assert_eq!(a[1][0], 1);
}

#[test]
fn orientation_makes_a_flipped_strip_agree() {
    let mut faces = vec![[0, 1, 2], [1, 2, 3], [2, 3, 4], [4, 3, 5]];
    let flipped = orient_faces_locally(&mut faces);
    assert_eq!(flipped, vec![false, true, false, false]);
    assert!(check_normal_consistency(&faces).is_empty());
}

#[test]
fn degenerate_removal_drops_what_the_check_reports() {
    let mut mesh = Mesh { vertices: vec![v(0.0, 0.0, 0.0), v(1.0, 0.0, 0.0), v(0.0, 1.0, 0.0)], faces: vec![[0, 1, 2], [0, 2, 1]] };
    let areas = vec![0.5f32.to_bits(), 1.0e-8f32.to_bits()];
    let reported = check_degenerate_faces(&mesh.faces, &areas);
    assert_eq!(reported.len(), 1);
    assert_eq!(reported[0].face_ids, vec![1]);
    let fixes = remove_degenerate_faces(&mut mesh, &areas);
    assert_eq!(mesh.faces, vec![[0, 1, 2]]);
    assert_eq!(count_metric(&fixes[0]), MetricValue::Count(1));
    assert!(check_degenerate_faces(&mesh.faces, &vec![0.5f32.to_bits()]).is_empty());
    let mut edge = Mesh { vertices: mesh.vertices.clone(), faces: vec![[0, 1, 2]] };
    assert_eq!(remove_degenerate_faces(&mut edge, &vec![f32::EPSILON.to_bits()]).len(), 1);
    assert!(edge.faces.is_empty());
}

#[test]
fn orientation_of_a_fan_edge_is_repeatable() {
    let start = vec![[0, 1, 2], [0, 1, 3], [1, 0, 4]];
    let mut first = start.clone();
    let mut second = start.clone();
    let flipped_first = orient_faces_locally(&mut first);
    let flipped_second = orient_faces_locally(&mut second);
    assert_eq!(flipped_first, vec![false, true, false]);
    assert_eq!(first, vec![[0, 1, 2], [0, 3, 1], [1, 0, 4]]);
    assert_eq!(flipped_first, flipped_second);
    assert_eq!(first, second);
}
