use meshlint_core::layers::{check_large_cross_sections, large_cross_sections_enabled, layer_groups, LayerSection};
use meshlint_core::lint::{ascii_lowercase, eq_ignore_ascii_case, is_sla, lint_format, repair_format};
use meshlint_core::shells::connected_shells;
use meshlint_core::quality::{
    cap_findings_per_rule, check_bad_aspect_triangles, check_tiny_edges, check_units, check_zero_volume_shells, mesh_edges,
    self_intersection_skipped_finding, AspectMeasure, EdgeLength, Extent, ShellMeasure,
};
use meshlint_core::{
    count_severity, default_process, fixed_path, format_face_context, infer_format, lint_findings, Finding, Measurements,
    Mesh, MeshLintError, MetricValue, Severity,
};

fn v(x: f32, y: f32, z: f32) -> [u32; 3] {
    [x.to_bits(), y.to_bits(), z.to_bits()]
}

fn finding(severity: Severity) -> Finding {
    Finding {
        rule_id: "r".to_string(),
        severity,
        message: "m".to_string(),
        face_ids: vec![],
        metrics: vec![],
        recommendation: None,
    }
}

#[test]
fn default_process_is_sla() {
    assert_eq!(default_process(), "sla");
    assert!(is_sla("SLA"));
    assert!(is_sla("sla"));
    assert!(!is_sla("fdm"));
    assert!(!is_sla("slab"));
}

#[test]
fn ascii_case_helpers() {
    assert_eq!(ascii_lowercase("StL-Ä"), "stl-Ä");
    assert!(eq_ignore_ascii_case("Stl", "sTL"));
    assert!(!eq_ignore_ascii_case("stl", "stl "));
}

#[test]
fn format_checks() {
    assert!(lint_format("STL").is_ok());
    match lint_format("OBJ") {
        Err(MeshLintError::UnsupportedFormat(f)) => assert_eq!(f, "obj"),
        _ => panic!("expected an unsupported format"),
    }
    assert!(repair_format("Stl").is_ok());
    match repair_format("OBJ") {
        Err(MeshLintError::UnsupportedFormat(f)) => assert_eq!(f, "OBJ"),
        _ => panic!("expected an unsupported format"),
    }
}

#[test]
fn severity_counts() {
    let fs = vec![finding(Severity::Error), finding(Severity::Warn), finding(Severity::Error), finding(Severity::Info)];
    assert_eq!(count_severity(&fs, Severity::Error), 2);
    assert_eq!(count_severity(&fs, Severity::Warn), 1);
    assert_eq!(count_severity(&fs, Severity::Info), 1);
    assert_eq!(count_severity(&vec![], Severity::Error), 0);
}

#[test]
fn face_context_text() {
    assert_eq!(format_face_context(&vec![]), "");
    assert_eq!(format_face_context(&vec![91]), "(face 91)");
    assert_eq!(format_face_context(&vec![120, 844]), "(faces 120, 844)");
    assert_eq!(format_face_context(&vec![1, 2, 3]), "(faces 1, 2, 3)");
    assert_eq!(format_face_context(&vec![320, 321, 322, 323]), "(faces 320, 321, 322, 323)");
    assert_eq!(format_face_context(&vec![91, 92, 93, 94, 95, 96, 97, 98, 99, 100]), "(faces 91, 92, 93, 94, +6 more)");
}

#[test]
fn format_from_path() {
    assert_eq!(infer_format("models/part.STL"), "stl");
    assert_eq!(infer_format("models/part.obj"), "obj");
    assert_eq!(infer_format("models/part"), "stl");
    assert_eq!(infer_format(".hidden"), "stl");
}

#[test]
fn fixed_output_path() {
    assert_eq!(fixed_path("models/part.stl"), "models/part.fixed.stl");
    assert_eq!(fixed_path("part.STL"), "part.fixed.STL");
    assert_eq!(fixed_path("dir/part"), "dir/part.fixed.stl");
    assert_eq!(fixed_path("a.b.stl"), "a.b.fixed.stl");
}

#[test]
fn layers_group_faces() {
    let groups = layer_groups(&vec![Some(3), None, Some(-2), Some(3), Some(0)]);
    let summary: Vec<(i64, Vec<u32>)> = groups.iter().map(|g| (g.layer, g.face_ids.clone())).collect();
    assert_eq!(summary, vec![(-2, vec![2]), (0, vec![4]), (3, vec![0, 3])]);
}

#[test]
fn large_cross_sections_reported() {
    assert!(large_cross_sections_enabled(0.05f32.to_bits(), 1200.0f32.to_bits()));
    assert!(!large_cross_sections_enabled(0.0f32.to_bits(), 1200.0f32.to_bits()));
    assert!(!large_cross_sections_enabled(0.05f32.to_bits(), (-1.0f32).to_bits()));
    let sections = vec![
        LayerSection { layer: -3, z: 0f64.to_bits(), area: 100.0f32.to_bits(), area_text: "100.00".to_string(), face_ids: vec![1] },
        LayerSection { layer: 428, z: (428.0f64 * 0.05f32 as f64).to_bits(), area: 1440.2f32.to_bits(), area_text: "1440.20".to_string(), face_ids: vec![1024, 1025] },
    ];
    let r = check_large_cross_sections(&sections, 1200.0f32.to_bits(), "1200.00");
    assert_eq!(r.len(), 1);
    assert_eq!(r[0].message, "large cross-section near layer 428 is 1440.20 mm2; threshold is 1200.00 mm2");
    assert_eq!(r[0].rule_id, "sla/large-cross-section");
    assert_eq!(r[0].face_ids, vec![1024, 1025]);
    assert_eq!(r[0].metrics[0].value, MetricValue::Integer(428));
    let negative = check_large_cross_sections(&sections, 50.0f32.to_bits(), "50.00");
    assert_eq!(negative.len(), 2);
    assert_eq!(negative[0].message, "large cross-section near layer -3 is 100.00 mm2; threshold is 50.00 mm2");
    assert_eq!(negative[1].metrics[0].value, MetricValue::Integer(428));
}

#[test]
fn lint_runs_every_check_in_order() {
    let mesh = Mesh { vertices: vec![v(0.0, 0.0, 0.0), v(1.0, 0.0, 0.0), v(0.0, 1.0, 0.0)], faces: vec![[0, 1, 2]] };
    let shells = connected_shells(&mesh.faces);
    let m = Measurements {
        face_areas: vec![0.5f32.to_bits()],
        signed_volume: 0.0f32.to_bits(),
        intersections: vec![],
        shells,
        shell_sizes: vec![0.0f32.to_bits()],
        tiny_shell_volume: 1.0f32.to_bits(),
        tiny_shell_text: "1.000".to_string(),
        cross_sections: vec![],
        large_cross_section: 1200.0f32.to_bits(),
        large_cross_section_text: "1200.00".to_string(),
        edge_lengths: mesh_edges(&mesh.faces).iter().map(|_| EdgeLength { length: 1.0f32.to_bits(), text: "1.00000".to_string() }).collect(),
        tiny_edge: 0.01f32.to_bits(),
        tiny_edge_text: "0.01000".to_string(),
        aspects: vec![AspectMeasure { ratio: 1.41f32.to_bits(), ratio_text: "1.41".to_string(), shortest: 1.0f32.to_bits(), longest: 1.41f32.to_bits() }],
        bad_aspect_ratio: 100.0f32.to_bits(),
        bad_aspect_text: "100.00".to_string(),
        shell_measures: vec![ShellMeasure { volume: 0.0f32.to_bits(), area: 0.5f32.to_bits() }],
        extent: Some(Extent { x: 1.0f32.to_bits(), y: 1.0f32.to_bits(), z: 0.0f32.to_bits(), max: 1.0f32.to_bits(), max_text: "1.000".to_string() }),
        suspicious_min_dimension: 0.5f32.to_bits(),
        suspicious_max_dimension: 1000.0f32.to_bits(),
        intersection_cutoff: None,
        max_findings_per_rule: 2,
    };
    let r = lint_findings(&mesh, "sla", &m);
    let rules: Vec<&str> = r.iter().map(|f| f.rule_id.as_str()).collect();
    assert_eq!(rules, vec![
        "mesh/non-manifold",
        "mesh/non-manifold",
        "mesh/boundary-loop",
        "mesh/zero-volume-shell",
        "mesh/non-manifold-truncated",
    ]);
    assert_eq!(r[4].message, "1 additional mesh/non-manifold findings omitted after limit 2");
    assert_eq!(r[4].severity, Severity::Info);
    assert_eq!(r[4].metrics[0].value, MetricValue::Count(1));
    assert_eq!(count_severity(&r, Severity::Error), 3);
}

#[test]
fn tiny_edges_are_reported_with_their_faces() {
    let faces = vec![[0, 1, 2], [1, 0, 3]];
    let edges = mesh_edges(&faces);
    assert_eq!(edges, vec![(0, 1), (0, 2), (0, 3), (1, 2), (1, 3)]);
    let lengths: Vec<EdgeLength> = edges
        .iter()
        .map(|e| {
            let l = if *e == (0, 1) { 0.001f32 } else { 1.0 };
            EdgeLength { length: l.to_bits(), text: format!("{l:.5}") }
        })
        .collect();
    let r = check_tiny_edges(&faces, &lengths, 0.01f32.to_bits(), "0.01000");
    assert_eq!(r.len(), 1);
    assert_eq!(r[0].message, "edge 0-1 is 0.00100 mm; below 0.01000 mm");
    assert_eq!(r[0].face_ids, vec![0, 1]);
    assert_eq!(r[0].rule_id, "mesh/tiny-edge");
}

#[test]
fn sliver_triangles_are_reported() {
    let measures = vec![
        AspectMeasure { ratio: 1000.0f32.to_bits(), ratio_text: "1000.00".to_string(), shortest: 0.001f32.to_bits(), longest: 1.0f32.to_bits() },
        AspectMeasure { ratio: 2.0f32.to_bits(), ratio_text: "2.00".to_string(), shortest: 0.5f32.to_bits(), longest: 1.0f32.to_bits() },
    ];
    let r = check_bad_aspect_triangles(&measures, 100.0f32.to_bits(), "100.00");
    assert_eq!(r.len(), 1);
    assert_eq!(r[0].message, "face 0 has aspect ratio 1000.00; threshold is 100.00");
    assert_eq!(r[0].face_ids, vec![0]);
}

#[test]
fn flat_shells_are_reported() {
    let shells = vec![vec![0, 1], vec![2, 3, 4, 5]];
    let measures = vec![ShellMeasure { volume: 0.0f32.to_bits(), area: 2.0f32.to_bits() }, ShellMeasure { volume: 1.0f32.to_bits(), area: 6.0f32.to_bits() }];
    let r = check_zero_volume_shells(&shells, &measures);
    assert_eq!(r.len(), 1);
    assert_eq!(r[0].message, "shell 0 has surface area but near-zero enclosed volume");
    assert_eq!(r[0].face_ids, vec![0, 1]);
}

#[test]
fn suspicious_units_are_reported() {
    let small = Some(Extent { x: 0.1f32.to_bits(), y: 0.05f32.to_bits(), z: 0.02f32.to_bits(), max: 0.1f32.to_bits(), max_text: "0.100".to_string() });
    let r = check_units(&small, 0.5f32.to_bits(), 1000.0f32.to_bits());
    assert_eq!(r[0].message, "model maximum dimension is 0.100 mm; units may be too small");
    let large = Some(Extent { x: 2000.0f32.to_bits(), y: 1.0f32.to_bits(), z: 1.0f32.to_bits(), max: 2000.0f32.to_bits(), max_text: "2000.000".to_string() });
    let r = check_units(&large, 0.5f32.to_bits(), 1000.0f32.to_bits());
    assert_eq!(r[0].message, "model maximum dimension is 2000.000 mm; units may be too large");
    assert!(check_units(&None, 0.5f32.to_bits(), 1000.0f32.to_bits()).is_empty());
}

#[test]
fn bounded_intersection_search_warning() {
    let f = self_intersection_skipped_finding(900, 50001, 50000);
    assert_eq!(f.message, "self-intersection check skipped after 50001 candidate tests; limit is 50000");
    assert_eq!(f.rule_id, "mesh/self-intersection-skipped");
    assert_eq!(f.severity, Severity::Warn);
}

#[test]
fn findings_are_capped_per_rule() {
    let mut fs = Vec::new();
    for i in 0..5 {
        let mut f = finding(Severity::Warn);
        f.rule_id = if i % 2 == 0 { "a".to_string() } else { "b".to_string() };
        f.message = format!("{i}");
        fs.push(f);
    }
    let r = cap_findings_per_rule(fs.clone(), 1);
    let messages: Vec<&str> = r.iter().map(|f| f.message.as_str()).collect();
    assert_eq!(messages, vec!["0", "1", "2 additional a findings omitted after limit 1", "1 additional b findings omitted after limit 1"]);
    assert_eq!(r[2].rule_id, "a-truncated");
    assert_eq!(cap_findings_per_rule(fs.clone(), 0).len(), 5);
    assert_eq!(cap_findings_per_rule(fs, 3).len(), 5);
}

fn measurements_with_sections(mesh: &Mesh, sections: Vec<LayerSection>, cap: u64) -> Measurements {
    let shells = connected_shells(&mesh.faces);
    Measurements {
        face_areas: vec![0.5f32.to_bits()],
        signed_volume: 0.0f32.to_bits(),
        intersections: vec![],
        shells,
        shell_sizes: vec![0.0f32.to_bits()],
        tiny_shell_volume: 1.0f32.to_bits(),
        tiny_shell_text: "1.000".to_string(),
        cross_sections: sections,
        large_cross_section: 0.25f32.to_bits(),
        large_cross_section_text: "0.25".to_string(),
        edge_lengths: mesh_edges(&mesh.faces).iter().map(|_| EdgeLength { length: 1.0f32.to_bits(), text: "1.00000".to_string() }).collect(),
        tiny_edge: 0.01f32.to_bits(),
        tiny_edge_text: "0.01000".to_string(),
        aspects: vec![AspectMeasure { ratio: 1.41f32.to_bits(), ratio_text: "1.41".to_string(), shortest: 1.0f32.to_bits(), longest: 1.41f32.to_bits() }],
        bad_aspect_ratio: 100.0f32.to_bits(),
        bad_aspect_text: "100.00".to_string(),
        shell_measures: vec![ShellMeasure { volume: 0.0f32.to_bits(), area: 0.5f32.to_bits() }],
        extent: Some(Extent { x: 1.0f32.to_bits(), y: 1.0f32.to_bits(), z: 0.0f32.to_bits(), max: 1.0f32.to_bits(), max_text: "1.000".to_string() }),
        suspicious_min_dimension: 0.5f32.to_bits(),
        suspicious_max_dimension: 1000.0f32.to_bits(),
        intersection_cutoff: None,
        max_findings_per_rule: cap,
    }
}

#[test]
fn other_processes_drop_only_cross_sections() {
    let mesh = Mesh { vertices: vec![v(0.0, 0.0, 0.0), v(1.0, 0.0, 0.0), v(0.0, 1.0, 0.0)], faces: vec![[0, 1, 2]] };
    let sections = vec![
        LayerSection { layer: 0, z: 0f64.to_bits(), area: 0.5f32.to_bits(), area_text: "0.50".to_string(), face_ids: vec![0] },
        LayerSection { layer: 1, z: 0.05f64.to_bits(), area: 0.5f32.to_bits(), area_text: "0.50".to_string(), face_ids: vec![0] },
        LayerSection { layer: 2, z: 0.1f64.to_bits(), area: 0.5f32.to_bits(), area_text: "0.50".to_string(), face_ids: vec![0] },
    ];
    let m = measurements_with_sections(&mesh, sections, 2);
    let sla = lint_findings(&mesh, "SLA", &m);
    let fdm = lint_findings(&mesh, "fdm", &m);
    assert!(sla.iter().any(|f| f.rule_id == "sla/large-cross-section"));
    assert!(sla.iter().any(|f| f.rule_id == "sla/large-cross-section-truncated"));
    let kept: Vec<Finding> = sla
        .into_iter()
        .filter(|f| f.rule_id != "sla/large-cross-section" && f.rule_id != "sla/large-cross-section-truncated")
        .collect();
    let summary = |fs: &Vec<Finding>| -> Vec<(String, String, Vec<u32>, Severity)> {
        fs.iter().map(|f| (f.rule_id.clone(), f.message.clone(), f.face_ids.clone(), f.severity)).collect()
    };
    assert_eq!(summary(&kept), summary(&fdm));
    assert!(fdm.iter().all(|f| !f.rule_id.starts_with("sla/")));
}
