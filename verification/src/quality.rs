use vstd::prelude::*;
use crate::checks::{count, face_ids_of, group_in, select, select_indices, lemma_select_step};
use crate::ieee::{f32_le, f32_lt, f32_less, F32_EPSILON_BITS, F32_ZERO_BITS};
use crate::model::{findings_view, metric, Finding, FindingView, Metric, MetricValue, Severity, metrics_view};
use crate::sort::ascending;
use crate::text::{decimal, decimal_string};
use crate::topology::{edge_keys, edge_table, group_faces, group_of, incidences, key_edge};

verus! {

// ---------------------------------------------------------------------------
// Tiny edges

/// The undirected edges of the faces, each as (smaller, larger) vertex, in
/// increasing order.
pub open spec fn mesh_edge_list(faces: Seq<[u32; 3]>) -> Seq<(u32, u32)> {
    ascending(edge_keys(faces)).map_values(|k: u64| key_edge(k))
}

/// Lists the undirected edges of the faces in increasing order.
pub fn mesh_edges(faces: &Vec<[u32; 3]>) -> (r: Vec<(u32, u32)>)
    requires
        faces@.len() <= u32::MAX,
    ensures
        r@ == mesh_edge_list(faces@),
{
    let table = edge_table(faces);
    let mut r: Vec<(u32, u32)> = Vec::new();
    let mut i: usize = 0;
    while i < table.keys.len()
        invariant
            table.describes(faces@),
            0 <= i <= table.keys@.len(),
            r@ == table.keys@.take(i as int).map_values(|k: u64| key_edge(k)),
        decreases table.keys@.len() - i,
    {
        let k = table.keys[i];
        r.push(((k / 0x1_0000_0000) as u32, (k % 0x1_0000_0000) as u32));
        proof {
            assert(r@ =~= table.keys@.take(i + 1).map_values(|k: u64| key_edge(k)));
        }
        i = i + 1;
    }
    proof {
        assert(table.keys@.take(table.keys@.len() as int) =~= table.keys@);
    }
    r
}

/// The measured length of an edge (binary32) and how messages write it.
#[derive(Clone, Debug)]
pub struct EdgeLength {
    pub length: u32,
    pub text: String,
}

pub open spec fn tiny_edge_view(faces: Seq<[u32; 3]>, k: u64, m: EdgeLength, threshold: u32, threshold_text: Seq<char>) -> FindingView {
    let e = key_edge(k);
    FindingView {
        rule_id: "mesh/tiny-edge"@,
        severity: Severity::Warn,
        message: "edge "@ + decimal(e.0 as nat) + "-"@ + decimal(e.1 as nat) + " is "@ + m.text@ + " mm; below "@
            + threshold_text + " mm"@,
        face_ids: group_faces(group_of(incidences(faces), k)),
        metrics: seq![
            ("vertex_a"@, count(e.0 as int)),
            ("vertex_b"@, count(e.1 as int)),
            ("length_mm"@, MetricValue::Single(m.length)),
            ("threshold_mm"@, MetricValue::Single(threshold)),
        ],
        recommendation: Some("Weld near-duplicate vertices with --fix, or remesh the region."@),
    }
}

/// One finding per edge shorter than the threshold, in edge order;
/// `lengths[k]` measures the `k`-th edge of `mesh_edge_list(faces)`.
pub open spec fn tiny_edge_findings(faces: Seq<[u32; 3]>, lengths: Seq<EdgeLength>, threshold: u32, threshold_text: Seq<char>) -> Seq<FindingView> {
    let keys = ascending(edge_keys(faces));
    select_indices(
        keys.len() as int,
        |k: int| if f32_lt(lengths[k].length, threshold) { Some(tiny_edge_view(faces, keys[k], lengths[k], threshold, threshold_text)) } else { None },
    )
}

/// Reports every edge shorter than `threshold` (binary32, written
/// `threshold_text`); `lengths` measures the edges of `mesh_edges(faces)`.
pub fn check_tiny_edges(faces: &Vec<[u32; 3]>, lengths: &Vec<EdgeLength>, threshold: u32, threshold_text: &str) -> (r: Vec<Finding>)
    requires
        faces@.len() <= u32::MAX,
        lengths@.len() == ascending(edge_keys(faces@)).len(),
    ensures
        findings_view(r@) == tiny_edge_findings(faces@, lengths@, threshold, threshold_text@),
{
    let table = edge_table(faces);
    let ghost fs = faces@;
    let ghost keys = ascending(edge_keys(fs));
    let ghost sel = |k: int| if f32_lt(lengths@[k].length, threshold) { Some(tiny_edge_view(fs, keys[k], lengths@[k], threshold, threshold_text@)) } else { None };
    let mut r: Vec<Finding> = Vec::new();
    let mut i: usize = 0;
    while i < table.keys.len()
        invariant
            fs == faces@,
            table.describes(fs),
            keys == ascending(edge_keys(fs)),
            lengths@.len() == keys.len(),
            sel == (|k: int| if f32_lt(lengths@[k].length, threshold) { Some(tiny_edge_view(fs, keys[k], lengths@[k], threshold, threshold_text@)) } else { None }),
            0 <= i <= table.keys@.len(),
            findings_view(r@) == select_indices(i as int, sel),
        decreases table.keys@.len() - i,
    {
        let m = &lengths[i];
        if f32_less(m.length, threshold) {
            let g = group_in(&table, i, Ghost(fs));
            let k = table.keys[i];
            let a = (k / 0x1_0000_0000) as u32;
            let b = (k % 0x1_0000_0000) as u32;
            let mut message = String::from_str("edge ");
            message.append(decimal_string(a as u64).as_str());
            message.append("-");
            message.append(decimal_string(b as u64).as_str());
            message.append(" is ");
            message.append(m.text.as_str());
            message.append(" mm; below ");
            message.append(threshold_text);
            message.append(" mm");
            let mut metrics: Vec<Metric> = Vec::new();
            metrics.push(metric("vertex_a", MetricValue::Count(a as u64)));
            metrics.push(metric("vertex_b", MetricValue::Count(b as u64)));
            metrics.push(metric("length_mm", MetricValue::Single(m.length)));
            metrics.push(metric("threshold_mm", MetricValue::Single(threshold)));
            let f = Finding {
                rule_id: String::from_str("mesh/tiny-edge"),
                severity: Severity::Warn,
                message,
                face_ids: face_ids_of(g),
                metrics,
                recommendation: Some(String::from_str("Weld near-duplicate vertices with --fix, or remesh the region.")),
            };
            let ghost before = r@;
            r.push(f);
            proof {
                assert(metrics_view(f.metrics@) =~= tiny_edge_view(fs, keys[i as int], lengths@[i as int], threshold, threshold_text@).metrics);
                assert(sel(i as int) == Some(f@));
                assert(findings_view(r@) =~= findings_view(before).push(f@));
            }
        } else {
            proof {
                assert(sel(i as int) is None);
            }
        }
        i = i + 1;
    }
    r
}

// ---------------------------------------------------------------------------
// Bad-aspect triangles

/// A triangle's aspect ratio (longest over shortest edge) and edge lengths,
/// binary32, with the ratio as messages write it.
#[derive(Clone, Debug)]
pub struct AspectMeasure {
    pub ratio: u32,
    pub ratio_text: String,
    pub shortest: u32,
    pub longest: u32,
}

pub open spec fn bad_aspect_view(i: int, m: AspectMeasure, threshold: u32, threshold_text: Seq<char>) -> FindingView {
    FindingView {
        rule_id: "mesh/bad-aspect-triangle"@,
        severity: Severity::Warn,
        message: "face "@ + decimal(i as nat) + " has aspect ratio "@ + m.ratio_text@ + "; threshold is "@ + threshold_text,
        face_ids: seq![i as u32],
        metrics: seq![
            ("aspect_ratio"@, MetricValue::Single(m.ratio)),
            ("threshold"@, MetricValue::Single(threshold)),
            ("shortest_edge_mm"@, MetricValue::Single(m.shortest)),
            ("longest_edge_mm"@, MetricValue::Single(m.longest)),
        ],
        recommendation: Some("Remesh or simplify the region around this sliver triangle."@),
    }
}

/// One finding per face whose aspect ratio is above the threshold, in face order.
pub open spec fn bad_aspect_findings(measures: Seq<AspectMeasure>, threshold: u32, threshold_text: Seq<char>) -> Seq<FindingView> {
    select_indices(
        measures.len() as int,
        |i: int| if f32_lt(threshold, measures[i].ratio) { Some(bad_aspect_view(i, measures[i], threshold, threshold_text)) } else { None },
    )
}

/// Reports every face whose aspect ratio is above `threshold` (binary32,
/// written `threshold_text`); `measures[i]` measures face `i`.
pub fn check_bad_aspect_triangles(measures: &Vec<AspectMeasure>, threshold: u32, threshold_text: &str) -> (r: Vec<Finding>)
    requires
        measures@.len() <= u32::MAX,
    ensures
        findings_view(r@) == bad_aspect_findings(measures@, threshold, threshold_text@),
{
    let ghost sel = |i: int| if f32_lt(threshold, measures@[i].ratio) { Some(bad_aspect_view(i, measures@[i], threshold, threshold_text@)) } else { None };
    let mut r: Vec<Finding> = Vec::new();
    let mut i: usize = 0;
    while i < measures.len()
        invariant
            measures@.len() <= u32::MAX,
            sel == (|i: int| if f32_lt(threshold, measures@[i].ratio) { Some(bad_aspect_view(i, measures@[i], threshold, threshold_text@)) } else { None }),
            0 <= i <= measures@.len(),
            findings_view(r@) == select_indices(i as int, sel),
        decreases measures@.len() - i,
    {
        let m = &measures[i];
        if f32_less(threshold, m.ratio) {
            let mut message = String::from_str("face ");
            message.append(decimal_string(i as u64).as_str());
            message.append(" has aspect ratio ");
            message.append(m.ratio_text.as_str());
            message.append("; threshold is ");
            message.append(threshold_text);
            let mut metrics: Vec<Metric> = Vec::new();
            metrics.push(metric("aspect_ratio", MetricValue::Single(m.ratio)));
            metrics.push(metric("threshold", MetricValue::Single(threshold)));
            metrics.push(metric("shortest_edge_mm", MetricValue::Single(m.shortest)));
            metrics.push(metric("longest_edge_mm", MetricValue::Single(m.longest)));
            let mut face_ids: Vec<u32> = Vec::new();
            face_ids.push(i as u32);
            let f = Finding {
                rule_id: String::from_str("mesh/bad-aspect-triangle"),
                severity: Severity::Warn,
                message,
                face_ids,
                metrics,
                recommendation: Some(String::from_str("Remesh or simplify the region around this sliver triangle.")),
            };
            let ghost before = r@;
            r.push(f);
            proof {
                assert(metrics_view(f.metrics@) =~= bad_aspect_view(i as int, measures@[i as int], threshold, threshold_text@).metrics);
                assert(f.face_ids@ =~= seq![i as u32]);
                assert(sel(i as int) == Some(f@));
                assert(findings_view(r@) =~= findings_view(before).push(f@));
            }
        } else {
            proof {
                assert(sel(i as int) is None);
            }
        }
        i = i + 1;
    }
    r
}

// ---------------------------------------------------------------------------
// Zero-volume shells

/// A shell's enclosed volume (magnitude of the signed volume) and surface
/// area, binary32.
#[derive(Clone, Copy, Debug)]
pub struct ShellMeasure {
    pub volume: u32,
    pub area: u32,
}

/// A shell with some surface area whose volume is not above binary32 epsilon.
pub open spec fn flat_shell(m: ShellMeasure) -> bool {
    f32_lt(F32_ZERO_BITS, m.area) && !f32_lt(F32_EPSILON_BITS, m.volume)
}

pub open spec fn zero_volume_view(shell: Seq<usize>, c: int, m: ShellMeasure) -> FindingView {
    FindingView {
        rule_id: "mesh/zero-volume-shell"@,
        severity: Severity::Warn,
        message: "shell "@ + decimal(c as nat) + " has surface area but near-zero enclosed volume"@,
        face_ids: shell.map_values(|f: usize| f as u32),
        metrics: seq![
            ("shell"@, count(c)),
            ("faces"@, count(shell.len() as int)),
            ("volume_mm3"@, MetricValue::Single(m.volume)),
            ("surface_area_mm2"@, MetricValue::Single(m.area)),
        ],
        recommendation: Some("Remove sheet-like geometry or give it real thickness."@),
    }
}

/// One finding per shell with area but no volume, in shell order.
pub open spec fn zero_volume_findings(shells: Seq<Seq<usize>>, measures: Seq<ShellMeasure>) -> Seq<FindingView> {
    select_indices(
        shells.len() as int,
        |c: int| if flat_shell(measures[c]) { Some(zero_volume_view(shells[c], c, measures[c])) } else { None },
    )
}

/// Reports every shell that has surface area but near-zero enclosed volume;
/// `measures[c]` measures shell `c`.
pub fn check_zero_volume_shells(shells: &Vec<Vec<usize>>, measures: &Vec<ShellMeasure>) -> (r: Vec<Finding>)
    requires
        measures@.len() == shells@.len(),
        forall|c: int, k: int| 0 <= c < shells@.len() && 0 <= k < shells@[c]@.len() ==> #[trigger] shells@[c]@[k] <= u32::MAX,
    ensures
        findings_view(r@) == zero_volume_findings(crate::graph::lists_view(shells@), measures@),
{
    let ghost sv = crate::graph::lists_view(shells@);
    let ghost sel = |c: int| if flat_shell(measures@[c]) { Some(zero_volume_view(sv[c], c, measures@[c])) } else { None };
    let mut r: Vec<Finding> = Vec::new();
    let mut c: usize = 0;
    while c < shells.len()
        invariant
            sv == crate::graph::lists_view(shells@),
            measures@.len() == shells@.len(),
            forall|c: int, k: int| 0 <= c < shells@.len() && 0 <= k < shells@[c]@.len() ==> #[trigger] shells@[c]@[k] <= u32::MAX,
            sel == (|c: int| if flat_shell(measures@[c]) { Some(zero_volume_view(sv[c], c, measures@[c])) } else { None }),
            0 <= c <= shells@.len(),
            findings_view(r@) == select_indices(c as int, sel),
        decreases shells@.len() - c,
    {
        let m = measures[c];
        proof {
            assert(sv[c as int] == shells@[c as int]@);
        }
        if f32_less(F32_ZERO_BITS, m.area) && !f32_less(F32_EPSILON_BITS, m.volume) {
            let shell = &shells[c];
            let mut face_ids: Vec<u32> = Vec::new();
            let mut k: usize = 0;
            while k < shell.len()
                invariant
                    0 <= c < shells@.len(),
                    shell@ == shells@[c as int]@,
                    forall|c: int, k: int| 0 <= c < shells@.len() && 0 <= k < shells@[c]@.len() ==> #[trigger] shells@[c]@[k] <= u32::MAX,
                    0 <= k <= shell@.len(),
                    face_ids@ == shell@.take(k as int).map_values(|f: usize| f as u32),
                decreases shell@.len() - k,
            {
                proof {
                    assert(shells@[c as int]@[k as int] <= u32::MAX);
                }
                face_ids.push(shell[k] as u32);
                proof {
                    assert(face_ids@ =~= shell@.take(k + 1).map_values(|f: usize| f as u32));
                }
                k = k + 1;
            }
            proof {
                assert(shell@.take(shell@.len() as int) =~= shell@);
            }
            let mut message = String::from_str("shell ");
            message.append(decimal_string(c as u64).as_str());
            message.append(" has surface area but near-zero enclosed volume");
            let mut metrics: Vec<Metric> = Vec::new();
            metrics.push(metric("shell", MetricValue::Count(c as u64)));
            metrics.push(metric("faces", MetricValue::Count(shell.len() as u64)));
            metrics.push(metric("volume_mm3", MetricValue::Single(m.volume)));
            metrics.push(metric("surface_area_mm2", MetricValue::Single(m.area)));
            let f = Finding {
                rule_id: String::from_str("mesh/zero-volume-shell"),
                severity: Severity::Warn,
                message,
                face_ids,
                metrics,
                recommendation: Some(String::from_str("Remove sheet-like geometry or give it real thickness.")),
            };
            let ghost before = r@;
            r.push(f);
            proof {
                assert(metrics_view(f.metrics@) =~= zero_volume_view(sv[c as int], c as int, m).metrics);
                assert(sel(c as int) == Some(f@));
                assert(findings_view(r@) =~= findings_view(before).push(f@));
            }
        } else {
            proof {
                assert(sel(c as int) is None);
            }
        }
        c = c + 1;
    }
    r
}

// ---------------------------------------------------------------------------
// Suspicious units

/// The size of a mesh's bounding box (binary32), with its largest side as
/// messages write it.
#[derive(Clone, Debug)]
pub struct Extent {
    pub x: u32,
    pub y: u32,
    pub z: u32,
    pub max: u32,
    pub max_text: String,
}

pub open spec fn unit_view(e: Extent, min_threshold: u32, max_threshold: u32, small: bool) -> FindingView {
    FindingView {
        rule_id: "mesh/unit-suspicious"@,
        severity: Severity::Warn,
        message: "model maximum dimension is "@ + e.max_text@ + " mm; units may be too "@ + if small {
            "small"@
        } else {
            "large"@
        },
        face_ids: Seq::empty(),
        metrics: seq![
            ("x_mm"@, MetricValue::Single(e.x)),
            ("y_mm"@, MetricValue::Single(e.y)),
            ("z_mm"@, MetricValue::Single(e.z)),
            ("max_dimension_mm"@, MetricValue::Single(e.max)),
            ("min_threshold_mm"@, MetricValue::Single(min_threshold)),
            ("max_threshold_mm"@, MetricValue::Single(max_threshold)),
        ],
        recommendation: Some("Confirm the model units and rescale intentionally if needed."@),
    }
}

/// A finding when the largest side of the bounding box lies below the lower
/// threshold or above the upper one; none for a mesh without extent.
pub open spec fn unit_findings(extent: Option<Extent>, min_threshold: u32, max_threshold: u32) -> Seq<FindingView> {
    match extent {
        None => Seq::empty(),
        Some(e) => if f32_lt(e.max, min_threshold) {
            seq![unit_view(e, min_threshold, max_threshold, true)]
        } else if f32_lt(max_threshold, e.max) {
            seq![unit_view(e, min_threshold, max_threshold, false)]
        } else {
            Seq::empty()
        },
    }
}

/// Reports a model whose size suggests wrong units.
pub fn check_units(extent: &Option<Extent>, min_threshold: u32, max_threshold: u32) -> (r: Vec<Finding>)
    ensures
        findings_view(r@) == unit_findings(*extent, min_threshold, max_threshold),
{
    let mut r: Vec<Finding> = Vec::new();
    match extent {
        None => {
            proof {
                assert(findings_view(r@) =~= Seq::<FindingView>::empty());
            }
        },
        Some(e) => {
            let small = f32_less(e.max, min_threshold);
            if small || f32_less(max_threshold, e.max) {
                let mut message = String::from_str("model maximum dimension is ");
                message.append(e.max_text.as_str());
                message.append(" mm; units may be too ");
                message.append(if small { "small" } else { "large" });
                let mut metrics: Vec<Metric> = Vec::new();
                metrics.push(metric("x_mm", MetricValue::Single(e.x)));
                metrics.push(metric("y_mm", MetricValue::Single(e.y)));
                metrics.push(metric("z_mm", MetricValue::Single(e.z)));
                metrics.push(metric("max_dimension_mm", MetricValue::Single(e.max)));
                metrics.push(metric("min_threshold_mm", MetricValue::Single(min_threshold)));
                metrics.push(metric("max_threshold_mm", MetricValue::Single(max_threshold)));
                let f = Finding {
                    rule_id: String::from_str("mesh/unit-suspicious"),
                    severity: Severity::Warn,
                    message,
                    face_ids: Vec::new(),
                    metrics,
                    recommendation: Some(String::from_str("Confirm the model units and rescale intentionally if needed.")),
                };
                r.push(f);
                proof {
                    assert(metrics_view(f.metrics@) =~= unit_view(*e, min_threshold, max_threshold, small).metrics);
                    assert(f.face_ids@ =~= Seq::<u32>::empty());
                    assert(f.message@ =~= unit_view(*e, min_threshold, max_threshold, small).message);
                    assert(findings_view(r@) =~= seq![f@]);
                }
            } else {
                proof {
                    assert(findings_view(r@) =~= Seq::<FindingView>::empty());
                }
            }
        },
    }
    r
}

// ---------------------------------------------------------------------------
// Bounded self-intersection search

pub open spec fn skipped_view(faces: nat, attempted: nat, max_tests: nat) -> FindingView {
    FindingView {
        rule_id: "mesh/self-intersection-skipped"@,
        severity: Severity::Warn,
        message: "self-intersection check skipped after "@ + decimal(attempted) + " candidate tests; limit is "@ + decimal(
            max_tests,
        ),
        face_ids: Seq::empty(),
        metrics: seq![
            ("faces"@, count(faces as int)),
            ("attempted_tests"@, count(attempted as int)),
            ("max_tests"@, count(max_tests as int)),
        ],
        recommendation: Some("Raise --max-self-intersection-tests for a deeper check."@),
    }
}

/// The warning that the self-intersection search stopped at its test budget.
pub fn self_intersection_skipped_finding(faces: u64, attempted: u64, max_tests: u64) -> (f: Finding)
    ensures
        f@ == skipped_view(faces as nat, attempted as nat, max_tests as nat),
{
    let mut message = String::from_str("self-intersection check skipped after ");
    message.append(decimal_string(attempted).as_str());
    message.append(" candidate tests; limit is ");
    message.append(decimal_string(max_tests).as_str());
    let mut metrics: Vec<Metric> = Vec::new();
    metrics.push(metric("faces", MetricValue::Count(faces)));
    metrics.push(metric("attempted_tests", MetricValue::Count(attempted)));
    metrics.push(metric("max_tests", MetricValue::Count(max_tests)));
    let f = Finding {
        rule_id: String::from_str("mesh/self-intersection-skipped"),
        severity: Severity::Warn,
        message,
        face_ids: Vec::new(),
        metrics,
        recommendation: Some(String::from_str("Raise --max-self-intersection-tests for a deeper check.")),
    };
    proof {
        assert(metrics_view(f.metrics@) =~= skipped_view(faces as nat, attempted as nat, max_tests as nat).metrics);
        assert(f.face_ids@ =~= Seq::<u32>::empty());
    }
    f
}

// ---------------------------------------------------------------------------
// Per-rule output caps

/// How many findings carry the given rule id.
pub open spec fn rule_count(fs: Seq<FindingView>, rule: Seq<char>) -> nat
    decreases fs.len(),
{
    if fs.len() == 0 {
        0
    } else {
        rule_count(fs.drop_last(), rule) + if fs.last().rule_id == rule { 1nat } else { 0nat }
    }
}

/// The rule ids of the findings, each once, in order of first appearance.
pub open spec fn rules_in_order(fs: Seq<FindingView>) -> Seq<Seq<char>>
    decreases fs.len(),
{
    if fs.len() == 0 {
        Seq::empty()
    } else {
        let r = rules_in_order(fs.drop_last());
        if r.contains(fs.last().rule_id) {
            r
        } else {
            r.push(fs.last().rule_id)
        }
    }
}

/// Finding `i` is among the first `limit` of its rule (every finding is, for
/// a limit of zero).
pub open spec fn within_cap(fs: Seq<FindingView>, i: int, limit: nat) -> bool {
    limit == 0 || rule_count(fs.take(i), fs[i].rule_id) < limit
}

/// The note that `omitted` findings of a rule were left out.
pub open spec fn truncation_view(rule: Seq<char>, omitted: nat, limit: nat) -> FindingView {
    FindingView {
        rule_id: rule + "-truncated"@,
        severity: Severity::Info,
        message: decimal(omitted) + " additional "@ + rule + " findings omitted after limit "@ + decimal(limit),
        face_ids: Seq::empty(),
        metrics: seq![("omitted"@, count(omitted as int)), ("limit"@, count(limit as int))],
        recommendation: Some("Raise --max-findings-per-rule, or set it to 0, to see every finding."@),
    }
}

/// The findings kept under a per-rule limit, then one note per rule that
/// went over it, in order of the rules' first appearance.
pub open spec fn capped_findings(fs: Seq<FindingView>, limit: nat) -> Seq<FindingView> {
    select_indices(fs.len() as int, |i: int| if within_cap(fs, i, limit) { Some(fs[i]) } else { None }) + select(
        rules_in_order(fs),
        |r: Seq<char>| if limit > 0 && rule_count(fs, r) > limit { Some(truncation_view(r, (rule_count(fs, r) - limit) as nat, limit)) } else { None },
    )
}

proof fn lemma_rules_in_order(fs: Seq<FindingView>)
    ensures
        rules_in_order(fs).no_duplicates(),
        forall|r: Seq<char>| #[trigger] rules_in_order(fs).contains(r) <==> rule_count(fs, r) > 0,
    decreases fs.len(),
{
    if fs.len() > 0 {
        lemma_rules_in_order(fs.drop_last());
        let r0 = rules_in_order(fs.drop_last());
        assert forall|r: Seq<char>| #[trigger] rules_in_order(fs).contains(r) <==> rule_count(fs, r) > 0 by {
            if r0.contains(r) {
                let k = choose|k: int| 0 <= k < r0.len() && r0[k] == r;
                assert(rules_in_order(fs)[k] == r);
            }
            if rules_in_order(fs).contains(r) && !r0.contains(r) {
                let k = choose|k: int| 0 <= k < rules_in_order(fs).len() && rules_in_order(fs)[k] == r;
                assert(k == r0.len());
            }
            if fs.last().rule_id == r && !r0.contains(r) {
                assert(rules_in_order(fs)[r0.len() as int] == r);
            }
        }
    }
}

/// Keeps at most `limit` findings per rule (all of them for a limit of zero)
/// and notes, per rule that went over, how many were left out.
pub fn cap_findings_per_rule(findings: Vec<Finding>, limit: u64) -> (r: Vec<Finding>)
    ensures
        findings_view(r@) == capped_findings(findings_view(findings@), limit as nat),
{
    let ghost fv = findings_view(findings@);
    let n = findings.len();
    let mut rest = findings;
    let mut rev: Vec<Finding> = Vec::new();
    while rest.len() > 0
        invariant
            fv.len() == n,
            rest@.len() + rev@.len() == n,
            forall|j: int| 0 <= j < rest@.len() ==> #[trigger] rest@[j]@ == fv[j],
            forall|j: int| 0 <= j < rev@.len() ==> #[trigger] rev@[j]@ == fv[n - 1 - j],
        decreases rest@.len(),
    {
        let f = rest.pop().unwrap();
        rev.push(f);
    }
    let ghost keep = |i: int| if within_cap(fv, i, limit as nat) { Some(fv[i]) } else { None };
    let mut rules: Vec<String> = Vec::new();
    let mut counts: Vec<u64> = Vec::new();
    let mut r: Vec<Finding> = Vec::new();
    let mut i: usize = 0;
    while i < n
        invariant
            fv.len() == n,
            rev@.len() == n - i,
            forall|j: int| 0 <= j < rev@.len() ==> #[trigger] rev@[j]@ == fv[n - 1 - j],
            0 <= i <= n,
            keep == (|i: int| if within_cap(fv, i, limit as nat) { Some(fv[i]) } else { None }),
            findings_view(r@) == select_indices(i as int, keep),
            rules@.len() == counts@.len(),
            rules@.map_values(|s: String| s@) == rules_in_order(fv.take(i as int)),
            forall|p: int| 0 <= p < counts@.len() ==> #[trigger] counts@[p] == rule_count(fv.take(i as int), rules@[p]@),
            forall|p: int| 0 <= p < counts@.len() ==> #[trigger] counts@[p] <= i,
        decreases n - i,
    {
        let f = rev.pop().unwrap();
        let ghost t = fv.take(i as int);
        proof {
            assert(f@ == fv[i as int]);
            assert(fv.take(i + 1).drop_last() =~= t);
            assert(fv.take(i + 1).last() == f@);
            lemma_rules_in_order(t);
        }
        let mut p: usize = 0;
        while p < rules.len()
            invariant
                rules@.len() == counts@.len(),
                0 <= p <= rules@.len(),
                forall|q: int| 0 <= q < p ==> (#[trigger] rules@[q])@ != f.rule_id@,
            ensures
                0 <= p <= rules@.len(),
                p < rules@.len() ==> rules@[p as int]@ == f.rule_id@,
                forall|q: int| 0 <= q < p ==> (#[trigger] rules@[q])@ != f.rule_id@,
            decreases rules@.len() - p,
        {
            if rules[p] == f.rule_id {
                break;
            }
            p = p + 1;
        }
        let ghost rv = rules@.map_values(|s: String| s@);
        let before: u64;
        if p < rules.len() {
            proof {
                assert(rv[p as int] == f@.rule_id);
                assert(rules_in_order(fv.take(i + 1)) == rv);
            }
            before = counts[p];
            counts.set(p, before + 1);
            proof {
                assert forall|q: int| 0 <= q < counts@.len() implies #[trigger] counts@[q] == rule_count(fv.take(i + 1), rules@[q]@) by {
                    if q != p {
                        assert(rv[q] == rules@[q]@);
                        assert(rv.no_duplicates());
                        assert(rules@[q]@ != f.rule_id@);
                    }
                }
            }
        } else {
            proof {
                assert(!rv.contains(f@.rule_id)) by {
                    if rv.contains(f@.rule_id) {
                        let q = choose|q: int| 0 <= q < rv.len() && rv[q] == f@.rule_id;
                        assert(rules@[q]@ == f.rule_id@);
                    }
                }
                assert(rule_count(t, f@.rule_id) == 0);
            }
            before = 0;
            let ghost r0 = rules@;
            rules.push(f.rule_id.clone());
            counts.push(1);
            proof {
                assert(rules@.map_values(|s: String| s@) =~= rv.push(f@.rule_id));
                assert forall|q: int| 0 <= q < counts@.len() implies #[trigger] counts@[q] == rule_count(fv.take(i + 1), rules@[q]@) by {
                    if q < r0.len() {
                        assert(rules@[q] == r0[q]);
                        assert(rv[q] == r0[q]@);
                        assert(rv.contains(r0[q]@));
                    }
                }
            }
        }
        proof {
            assert(before == rule_count(t, fv[i as int].rule_id));
            assert(select_indices(i + 1, keep) == match keep(i as int) {
                Some(b) => select_indices(i as int, keep).push(b),
                None => select_indices(i as int, keep),
            });
        }
        if limit == 0 || before < limit {
            let ghost r0 = r@;
            r.push(f);
            proof {
                assert(findings_view(r@) =~= findings_view(r0).push(fv[i as int]));
            }
        }
        i = i + 1;
    }
    proof {
        assert(fv.take(n as int) =~= fv);
        lemma_rules_in_order(fv);
    }
    let ghost rv = rules@.map_values(|s: String| s@);
    let ghost note = |rr: Seq<char>| if limit > 0 && rule_count(fv, rr) > limit { Some(truncation_view(rr, (rule_count(fv, rr) - limit) as nat, limit as nat)) } else { None };
    let ghost kept = findings_view(r@);
    let mut p: usize = 0;
    while p < rules.len()
        invariant
            rules@.len() == counts@.len(),
            rv == rules@.map_values(|s: String| s@),
            rv == rules_in_order(fv),
            forall|q: int| 0 <= q < counts@.len() ==> #[trigger] counts@[q] == rule_count(fv, rules@[q]@),
            note == (|rr: Seq<char>| if limit > 0 && rule_count(fv, rr) > limit { Some(truncation_view(rr, (rule_count(fv, rr) - limit) as nat, limit as nat)) } else { None }),
            0 <= p <= rules@.len(),
            findings_view(r@) == kept + select(rv.take(p as int), note),
        decreases rules@.len() - p,
    {
        let c = counts[p];
        proof {
            lemma_select_step(rv, note, p as int);
            assert(rv[p as int] == rules@[p as int]@);
        }
        if limit > 0 && c > limit {
            let omitted = c - limit;
            let rule = &rules[p];
            let mut rule_id = rule.clone();
            rule_id.append("-truncated");
            let mut message = decimal_string(omitted);
            message.append(" additional ");
            message.append(rule.as_str());
            message.append(" findings omitted after limit ");
            message.append(decimal_string(limit).as_str());
            let mut metrics: Vec<Metric> = Vec::new();
            metrics.push(metric("omitted", MetricValue::Count(omitted)));
            metrics.push(metric("limit", MetricValue::Count(limit)));
            let f = Finding {
                rule_id,
                severity: Severity::Info,
                message,
                face_ids: Vec::new(),
                metrics,
                recommendation: Some(String::from_str("Raise --max-findings-per-rule, or set it to 0, to see every finding.")),
            };
            let ghost r0 = r@;
            r.push(f);
            proof {
                assert(metrics_view(f.metrics@) =~= truncation_view(rv[p as int], omitted as nat, limit as nat).metrics);
                assert(f.face_ids@ =~= Seq::<u32>::empty());
                assert(note(rv[p as int]) == Some(f@));
                assert(findings_view(r@) =~= findings_view(r0).push(f@));
            }
        }
        p = p + 1;
    }
    proof {
        assert(rv.take(rv.len() as int) =~= rv);
    }
    r
}

/// With a limit of zero every finding is kept and nothing is noted.
pub proof fn law_no_cap_keeps_everything(fs: Seq<FindingView>)
    ensures
        capped_findings(fs, 0) == fs,
{
    let keep = |i: int| if within_cap(fs, i, 0) { Some(fs[i]) } else { None };
    lemma_select_keep_all(fs, fs.len() as int);
    let note = |r: Seq<char>| if 0nat > 0 && rule_count(fs, r) > 0 { Some(truncation_view(r, (rule_count(fs, r) - 0) as nat, 0)) } else { None };
    lemma_select_nothing(rules_in_order(fs), note);
    assert(fs.take(fs.len() as int) =~= fs);
    assert(capped_findings(fs, 0) =~= fs);
}

proof fn lemma_select_keep_all(fs: Seq<FindingView>, n: int)
    requires
        0 <= n <= fs.len(),
    ensures
        select_indices(n, |i: int| if within_cap(fs, i, 0) { Some(fs[i]) } else { None }) == fs.take(n),
    decreases n,
{
    if n > 0 {
        lemma_select_keep_all(fs, n - 1);
        assert(fs.take(n) =~= fs.take(n - 1).push(fs[n - 1]));
    } else {
        assert(fs.take(0) =~= Seq::<FindingView>::empty());
    }
}

pub proof fn lemma_select_nothing<A, B>(s: Seq<A>, f: spec_fn(A) -> Option<B>)
    requires
        forall|a: A| #[trigger] f(a) is None,
    ensures
        select(s, f) == Seq::<B>::empty(),
    decreases s.len(),
{
    if s.len() > 0 {
        lemma_select_nothing(s.drop_last(), f);
    }
}

/// Under a positive limit each rule keeps as many findings as it has, up to
/// the limit.
pub proof fn law_cap_keeps_at_most_limit(fs: Seq<FindingView>, limit: nat, rule: Seq<char>)
    requires
        limit > 0,
    ensures
        rule_count(
            select_indices(fs.len() as int, |i: int| if within_cap(fs, i, limit) { Some(fs[i]) } else { None }),
            rule,
        ) == if rule_count(fs, rule) < limit { rule_count(fs, rule) } else { limit },
{
    lemma_cap_prefix(fs, limit, rule, fs.len() as int);
    assert(fs.take(fs.len() as int) =~= fs);
}

proof fn lemma_cap_prefix(fs: Seq<FindingView>, limit: nat, rule: Seq<char>, n: int)
    requires
        limit > 0,
        0 <= n <= fs.len(),
    ensures
        rule_count(select_indices(n, |i: int| if within_cap(fs, i, limit) { Some(fs[i]) } else { None }), rule) == if rule_count(
            fs.take(n),
            rule,
        ) < limit {
            rule_count(fs.take(n), rule)
        } else {
            limit
        },
    decreases n,
{
    let keep = |i: int| if within_cap(fs, i, limit) { Some(fs[i]) } else { None };
    if n == 0 {
        assert(fs.take(0) =~= Seq::<FindingView>::empty());
    } else {
        lemma_cap_prefix(fs, limit, rule, n - 1);
        assert(fs.take(n).drop_last() =~= fs.take(n - 1));
        assert(fs.take(n).last() == fs[n - 1]);
        let prev = select_indices(n - 1, keep);
        if within_cap(fs, n - 1, limit) {
            assert(select_indices(n, keep) == prev.push(fs[n - 1]));
            assert(prev.push(fs[n - 1]).drop_last() =~= prev);
        }
    }
}


/// The rule id of the finding begins with the character `c`.
pub open spec fn rule_starts(f: FindingView, c: char) -> bool {
    f.rule_id.len() > 0 && f.rule_id[0] == c
}

/// Every finding's rule id begins with the character `c`.
pub open spec fn rules_start(fs: Seq<FindingView>, c: char) -> bool {
    forall|i: int| 0 <= i < fs.len() ==> #[trigger] rule_starts(fs[i], c)
}

/// The findings without those of `rule` and without its truncation note.
pub open spec fn without_rule(fs: Seq<FindingView>, rule: Seq<char>) -> Seq<FindingView> {
    fs.filter(|f: FindingView| f.rule_id != rule && f.rule_id != rule + "-truncated"@)
}

/// The values that `f` gives, over the first `n` indices, all satisfy `p`
/// when each value it gives does.
pub proof fn lemma_select_indices_all<B>(n: int, f: spec_fn(int) -> Option<B>, p: spec_fn(B) -> bool)
    requires
        forall|i: int| 0 <= i < n && #[trigger] f(i) is Some ==> p(f(i)->0),
    ensures
        forall|j: int| 0 <= j < select_indices(n, f).len() ==> #[trigger] p(select_indices(n, f)[j]),
    decreases n,
{
    if n > 0 {
        lemma_select_indices_all(n - 1, f, p);
        let r = select_indices(n - 1, f);
        assert forall|j: int| 0 <= j < select_indices(n, f).len() implies #[trigger] p(select_indices(n, f)[j]) by {
            if j < r.len() {
                assert(select_indices(n, f)[j] == r[j]);
                assert(p(r[j]));
            }
        }
    }
}

/// The values that `f` gives on the entries of `s` all satisfy `p` when each
/// value it gives does.
pub proof fn lemma_select_all_satisfy<A, B>(s: Seq<A>, f: spec_fn(A) -> Option<B>, p: spec_fn(B) -> bool)
    requires
        forall|i: int| 0 <= i < s.len() && #[trigger] f(s[i]) is Some ==> p(f(s[i])->0),
    ensures
        forall|j: int| 0 <= j < select(s, f).len() ==> #[trigger] p(select(s, f)[j]),
    decreases s.len(),
{
    if s.len() > 0 {
        assert forall|i: int| 0 <= i < s.drop_last().len() && #[trigger] f(s.drop_last()[i]) is Some implies p(
            f(s.drop_last()[i])->0,
        ) by {
            assert(s.drop_last()[i] == s[i]);
        }
        lemma_select_all_satisfy(s.drop_last(), f, p);
        assert(s.last() == s[s.len() - 1]);
        let r = select(s.drop_last(), f);
        assert forall|j: int| 0 <= j < select(s, f).len() implies #[trigger] p(select(s, f)[j]) by {
            if j < r.len() {
                assert(select(s, f)[j] == r[j]);
                assert(p(r[j]));
            }
        }
    }
}

proof fn lemma_filter_keeps_all(s: Seq<FindingView>, p: spec_fn(FindingView) -> bool)
    requires
        forall|i: int| 0 <= i < s.len() ==> #[trigger] p(s[i]),
    ensures
        s.filter(p) == s,
    decreases s.len(),
{
    reveal(Seq::filter);
    if s.len() > 0 {
        lemma_filter_keeps_all(s.drop_last(), p);
        assert(s.drop_last().push(s.last()) =~= s);
    }
}

proof fn lemma_rule_count_add(a: Seq<FindingView>, b: Seq<FindingView>, rule: Seq<char>)
    ensures
        rule_count(a + b, rule) == rule_count(a, rule) + rule_count(b, rule),
    decreases b.len(),
{
    if b.len() == 0 {
        assert(a + b =~= a);
    } else {
        lemma_rule_count_add(a, b.drop_last(), rule);
        assert((a + b).drop_last() =~= a + b.drop_last());
    }
}

proof fn lemma_rule_count_absent(fs: Seq<FindingView>, rule: Seq<char>)
    requires
        forall|i: int| 0 <= i < fs.len() ==> #[trigger] fs[i].rule_id != rule,
    ensures
        rule_count(fs, rule) == 0,
    decreases fs.len(),
{
    if fs.len() > 0 {
        lemma_rule_count_absent(fs.drop_last(), rule);
        assert(fs.last() == fs[fs.len() - 1]);
    }
}

proof fn lemma_counted_rule_starts(fs: Seq<FindingView>, rule: Seq<char>, c: char)
    requires
        rules_start(fs, c),
        rule_count(fs, rule) > 0,
    ensures
        rule.len() > 0 && rule[0] == c,
    decreases fs.len(),
{
    assert(fs.last() == fs[fs.len() - 1]);
    assert(rule_starts(fs[fs.len() - 1], c));
    if fs.last().rule_id != rule {
        assert forall|i: int| 0 <= i < fs.drop_last().len() implies #[trigger] rule_starts(fs.drop_last()[i], c) by {
            assert(fs.drop_last()[i] == fs[i]);
            assert(rule_starts(fs[i], c));
        }
        lemma_counted_rule_starts(fs.drop_last(), rule, c);
    }
}

proof fn lemma_rules_of_trailing_rule(fs: Seq<FindingView>, more: Seq<FindingView>, rule: Seq<char>)
    requires
        more.len() > 0,
        rule_count(fs, rule) == 0,
        forall|i: int| 0 <= i < more.len() ==> #[trigger] more[i].rule_id == rule,
    ensures
        rules_in_order(fs + more) == rules_in_order(fs).push(rule),
    decreases more.len(),
{
    lemma_rules_in_order(fs);
    assert((fs + more).drop_last() =~= fs + more.drop_last());
    assert((fs + more).last() == more[more.len() - 1]);
    if more.len() == 1 {
        assert(fs + more.drop_last() =~= fs);
    } else {
        assert forall|i: int| 0 <= i < more.drop_last().len() implies #[trigger] more.drop_last()[i].rule_id == rule by {
            assert(more.drop_last()[i] == more[i]);
        }
        lemma_rules_of_trailing_rule(fs, more.drop_last(), rule);
        assert(rules_in_order(fs).push(rule)[rules_in_order(fs).len() as int] == rule);
    }
}

proof fn lemma_select_same<A, B>(s: Seq<A>, f: spec_fn(A) -> Option<B>, g: spec_fn(A) -> Option<B>)
    requires
        forall|i: int| 0 <= i < s.len() ==> #[trigger] f(s[i]) == g(s[i]),
    ensures
        select(s, f) == select(s, g),
    decreases s.len(),
{
    if s.len() > 0 {
        assert forall|i: int| 0 <= i < s.drop_last().len() implies #[trigger] f(s.drop_last()[i]) == g(s.drop_last()[i]) by {
            assert(s.drop_last()[i] == s[i]);
        }
        lemma_select_same(s.drop_last(), f, g);
        assert(s.last() == s[s.len() - 1]);
    }
}

proof fn lemma_kept_prefix(fs: Seq<FindingView>, more: Seq<FindingView>, limit: nat, n: int)
    requires
        0 <= n <= fs.len(),
    ensures
        select_indices(n, |i: int| if within_cap(fs + more, i, limit) { Some((fs + more)[i]) } else { None })
            == select_indices(n, |i: int| if within_cap(fs, i, limit) { Some(fs[i]) } else { None }),
    decreases n,
{
    if n > 0 {
        lemma_kept_prefix(fs, more, limit, n - 1);
        assert((fs + more).take(n - 1) =~= fs.take(n - 1));
        assert((fs + more)[n - 1] == fs[n - 1]);
    }
}

proof fn lemma_kept_tail(fs: Seq<FindingView>, more: Seq<FindingView>, rule: Seq<char>, limit: nat, n: int)
    requires
        fs.len() <= n <= fs.len() + more.len(),
        forall|i: int| 0 <= i < more.len() ==> #[trigger] more[i].rule_id == rule,
    ensures
        without_rule(select_indices(n, |i: int| if within_cap(fs + more, i, limit) { Some((fs + more)[i]) } else { None }), rule)
            == without_rule(select_indices(fs.len() as int, |i: int| if within_cap(fs + more, i, limit) { Some((fs + more)[i]) } else { None }), rule),
    decreases n,
{
    let keep = |i: int| if within_cap(fs + more, i, limit) { Some((fs + more)[i]) } else { None };
    let p = |f: FindingView| f.rule_id != rule && f.rule_id != rule + "-truncated"@;
    if n > fs.len() {
        lemma_kept_tail(fs, more, rule, limit, n - 1);
        let prev = select_indices(n - 1, keep);
        assert((fs + more)[n - 1] == more[n - 1 - fs.len()]);
        if keep(n - 1) is Some {
            reveal(Seq::filter);
            assert(prev.push((fs + more)[n - 1]).drop_last() =~= prev);
        }
    }
}

/// Capping findings whose rules all begin with `m`, followed by findings of
/// one more rule that does not, and then dropping that rule and its note,
/// gives the capped findings of the first part.
pub proof fn lemma_cap_drops_trailing_rule(fs: Seq<FindingView>, more: Seq<FindingView>, rule: Seq<char>, limit: nat)
    requires
        rules_start(fs, 'm'),
        forall|i: int| 0 <= i < more.len() ==> #[trigger] more[i].rule_id == rule,
        rule.len() > 0,
        rule[0] != 'm',
    ensures
        without_rule(capped_findings(fs + more, limit), rule) == capped_findings(fs, limit),
{
    let p = |f: FindingView| f.rule_id != rule && f.rule_id != rule + "-truncated"@;
    let all = fs + more;
    let keep_all = |i: int| if within_cap(all, i, limit) { Some(all[i]) } else { None };
    let keep_fs = |i: int| if within_cap(fs, i, limit) { Some(fs[i]) } else { None };
    let note_all = |r: Seq<char>| if limit > 0 && rule_count(all, r) > limit { Some(truncation_view(r, (rule_count(all, r) - limit) as nat, limit)) } else { None };
    let note_fs = |r: Seq<char>| if limit > 0 && rule_count(fs, r) > limit { Some(truncation_view(r, (rule_count(fs, r) - limit) as nat, limit)) } else { None };
    assert forall|i: int| 0 <= i < fs.len() implies #[trigger] fs[i].rule_id != rule by {
        assert(rule_starts(fs[i], 'm'));
    }
    lemma_rule_count_absent(fs, rule);
    lemma_rules_in_order(fs);
    // The kept findings: those of the first part, then some of `rule`.
    lemma_kept_prefix(fs, more, limit, fs.len() as int);
    lemma_kept_tail(fs, more, rule, limit, all.len() as int);
    let pm = |f: FindingView| rule_starts(f, 'm');
    assert forall|i: int| 0 <= i < fs.len() && #[trigger] keep_fs(i) is Some implies pm(keep_fs(i)->0) by {
        assert(rule_starts(fs[i], 'm'));
    }
    lemma_select_indices_all(fs.len() as int, keep_fs, pm);
    assert forall|i: int| 0 <= i < select_indices(fs.len() as int, keep_fs).len() implies #[trigger] p(select_indices(fs.len() as int, keep_fs)[i]) by {
        assert(pm(select_indices(fs.len() as int, keep_fs)[i]));
    }
    lemma_filter_keeps_all(select_indices(fs.len() as int, keep_fs), p);
    // The notes: those of the first part's rules, then possibly one for `rule`.
    assert forall|i: int| 0 <= i < rules_in_order(fs).len() implies #[trigger] note_all(rules_in_order(fs)[i]) == note_fs(rules_in_order(fs)[i]) by {
        let r = rules_in_order(fs)[i];
        assert(rules_in_order(fs).contains(r));
        lemma_counted_rule_starts(fs, r, 'm');
        assert forall|j: int| 0 <= j < more.len() implies #[trigger] more[j].rule_id != r by {
            assert(more[j].rule_id[0] != r[0]);
        }
        lemma_rule_count_absent(more, r);
        lemma_rule_count_add(fs, more, r);
    }
    lemma_select_same(rules_in_order(fs), note_all, note_fs);
    assert forall|i: int| 0 <= i < rules_in_order(fs).len() && #[trigger] note_fs(rules_in_order(fs)[i]) is Some implies p(
        note_fs(rules_in_order(fs)[i])->0,
    ) by {
        let r = rules_in_order(fs)[i];
        assert(rules_in_order(fs).contains(r));
        lemma_counted_rule_starts(fs, r, 'm');
        assert((r + "-truncated"@)[0] == r[0]);
        assert((rule + "-truncated"@)[0] == rule[0]);
    }
    lemma_select_all_satisfy(rules_in_order(fs), note_fs, p);
    lemma_filter_keeps_all(select(rules_in_order(fs), note_fs), p);
    Seq::filter_distributes_over_add(
        select_indices(all.len() as int, keep_all),
        select(rules_in_order(all), note_all),
        p,
    );
    if more.len() == 0 {
        assert(all =~= fs);
    } else {
        lemma_rules_of_trailing_rule(fs, more, rule);
        let rs = rules_in_order(fs);
        assert(rs.push(rule).drop_last() =~= rs);
        assert(rs.push(rule).last() == rule);
        reveal(Seq::filter);
        if note_all(rule) is Some {
            let t = select(rs, note_all);
            assert(t.push(note_all(rule)->0).drop_last() =~= t);
        }
    }
}


/// Joining two lists whose rule ids all begin with `c` keeps that so.
pub proof fn lemma_rules_start_add(a: Seq<FindingView>, b: Seq<FindingView>, c: char)
    requires
        rules_start(a, c),
        rules_start(b, c),
    ensures
        rules_start(a + b, c),
{
    assert forall|i: int| 0 <= i < (a + b).len() implies #[trigger] rule_starts((a + b)[i], c) by {
        if i < a.len() {
            assert((a + b)[i] == a[i]);
            assert(rule_starts(a[i], c));
        } else {
            assert((a + b)[i] == b[i - a.len()]);
            assert(rule_starts(b[i - a.len()], c));
        }
    }
}


/// Where the values of `select_indices(n, f)` come from: strictly increasing
/// indices below `n`, exactly those at which `f` gives a value.
pub proof fn lemma_select_indices_positions<B>(n: int, f: spec_fn(int) -> Option<B>) -> (idx: Seq<int>)
    requires
        0 <= n,
    ensures
        idx.len() == select_indices(n, f).len(),
        forall|j: int| 0 <= j < idx.len() ==> 0 <= #[trigger] idx[j] < n && f(idx[j]) is Some && select_indices(n, f)[j]
            == f(idx[j])->0,
        forall|j: int, k: int| 0 <= j < k < idx.len() ==> #[trigger] idx[j] < #[trigger] idx[k],
        forall|i: int| 0 <= i < n && #[trigger] f(i) is Some ==> exists|j: int| 0 <= j < idx.len() && idx[j] == i,
    decreases n,
{
    if n == 0 {
        Seq::empty()
    } else {
        let prev = lemma_select_indices_positions(n - 1, f);
        let r = select_indices(n - 1, f);
        if f(n - 1) is Some {
            let idx = prev.push(n - 1);
            assert forall|j: int| 0 <= j < idx.len() implies 0 <= #[trigger] idx[j] < n && f(idx[j]) is Some
                && select_indices(n, f)[j] == f(idx[j])->0 by {
                if j < prev.len() {
                    assert(idx[j] == prev[j]);
                    assert(select_indices(n, f)[j] == r[j]);
                }
            }
            assert forall|i: int| 0 <= i < n && #[trigger] f(i) is Some implies exists|j: int| 0 <= j < idx.len() && idx[j] == i by {
                if i < n - 1 {
                    let j = choose|j: int| 0 <= j < prev.len() && prev[j] == i;
                    assert(idx[j] == i);
                } else {
                    assert(idx[prev.len() as int] == i);
                }
            }
            idx
        } else {
            prev
        }
    }
}


/// Every face whose aspect ratio is above the threshold is reported, naming
/// that face with its ratio as written and the threshold; nothing else is
/// reported, and the findings come in face order, one per face.
pub proof fn law_bad_aspect_reports_every_sliver(measures: Seq<AspectMeasure>, threshold: u32, threshold_text: Seq<char>)
    requires
        measures.len() <= u32::MAX,
    ensures
        ({
            let r = bad_aspect_findings(measures, threshold, threshold_text);
            &&& forall|i: int|
                0 <= i < measures.len() && f32_lt(threshold, #[trigger] measures[i].ratio) ==> exists|j: int|
                    0 <= j < r.len() && (#[trigger] r[j]).face_ids == seq![i as u32]
            &&& forall|j: int|
                0 <= j < r.len() ==> exists|i: int|
                    0 <= i < measures.len() && f32_lt(threshold, #[trigger] measures[i].ratio) && (#[trigger] r[j]).face_ids
                        == seq![i as u32] && r[j].rule_id == "mesh/bad-aspect-triangle"@ && r[j].message == "face "@
                        + decimal(i as nat) + " has aspect ratio "@ + measures[i].ratio_text@ + "; threshold is "@
                        + threshold_text
            &&& forall|j: int, k: int| 0 <= j < k < r.len() ==> (#[trigger] r[j]).face_ids[0] < (#[trigger] r[k]).face_ids[0]
        }),
{
    let f = |i: int| if f32_lt(threshold, measures[i].ratio) { Some(bad_aspect_view(i, measures[i], threshold, threshold_text)) } else { None };
    let r = bad_aspect_findings(measures, threshold, threshold_text);
    let idx = lemma_select_indices_positions(measures.len() as int, f);
    assert forall|i: int| 0 <= i < measures.len() && f32_lt(threshold, #[trigger] measures[i].ratio) implies exists|j: int|
        0 <= j < r.len() && (#[trigger] r[j]).face_ids == seq![i as u32] by {
        assert(f(i) is Some);
        let j = choose|j: int| 0 <= j < idx.len() && idx[j] == i;
        assert(r[j] == f(idx[j])->0);
    }
    assert forall|j: int| 0 <= j < r.len() implies exists|i: int|
        0 <= i < measures.len() && f32_lt(threshold, #[trigger] measures[i].ratio) && (#[trigger] r[j]).face_ids
            == seq![i as u32] && r[j].rule_id == "mesh/bad-aspect-triangle"@ && r[j].message == "face "@
            + decimal(i as nat) + " has aspect ratio "@ + measures[i].ratio_text@ + "; threshold is "@
            + threshold_text by {
        let i = idx[j];
        assert(f(i) is Some);
        assert(r[j] == f(i)->0);
    }
    assert forall|j: int, k: int| 0 <= j < k < r.len() implies (#[trigger] r[j]).face_ids[0] < (#[trigger] r[k]).face_ids[0] by {
        assert(idx[j] < idx[k]);
        assert(r[j] == f(idx[j])->0);
        assert(r[k] == f(idx[k])->0);
        assert(r[j].face_ids[0] == idx[j] as u32);
        assert(r[k].face_ids[0] == idx[k] as u32);
    }
}

/// Whether the size of a model looks like wrong units depends only on the
/// largest side of its bounding box: no finding while it lies within the two
/// thresholds, and otherwise one finding saying the units may be too small
/// (below the lower threshold) or too large (above the upper one); a model
/// without extent gets none.
pub proof fn law_units_follow_largest_side(e: Extent, other: Extent, min_threshold: u32, max_threshold: u32)
    requires
        other.max == e.max,
    ensures
        unit_findings(Some(e), min_threshold, max_threshold).len() == unit_findings(Some(other), min_threshold, max_threshold).len(),
        unit_findings(None, min_threshold, max_threshold).len() == 0,
        f32_le(min_threshold, e.max) && f32_le(e.max, max_threshold) ==> unit_findings(Some(e), min_threshold, max_threshold).len() == 0,
        f32_lt(e.max, min_threshold) ==> unit_findings(Some(e), min_threshold, max_threshold) == seq![
            unit_findings(Some(e), min_threshold, max_threshold)[0],
        ] && unit_findings(Some(e), min_threshold, max_threshold)[0].message == "model maximum dimension is "@ + e.max_text@
            + " mm; units may be too "@ + "small"@,
        f32_lt(max_threshold, e.max) && !f32_lt(e.max, min_threshold) ==> unit_findings(Some(e), min_threshold, max_threshold)
            == seq![unit_findings(Some(e), min_threshold, max_threshold)[0]] && unit_findings(
            Some(e),
            min_threshold,
            max_threshold,
        )[0].message == "model maximum dimension is "@ + e.max_text@ + " mm; units may be too "@ + "large"@,
{
    let r = unit_findings(Some(e), min_threshold, max_threshold);
    if f32_lt(e.max, min_threshold) || f32_lt(max_threshold, e.max) {
        assert(r =~= seq![r[0]]);
    }
}


/// The finding reports shell `c` (its faces, in the shell's order) as flat.
pub open spec fn reports_flat_shell(f: FindingView, shell: Seq<usize>, c: int) -> bool {
    &&& f.rule_id == "mesh/zero-volume-shell"@
    &&& f.face_ids == shell.map_values(|x: usize| x as u32)
    &&& f.message == "shell "@ + decimal(c as nat) + " has surface area but near-zero enclosed volume"@
}

/// The finding reports one of the shells that has surface area (above zero)
/// but a volume not above binary32 epsilon.
pub open spec fn reports_a_flat_shell(f: FindingView, shells: Seq<Seq<usize>>, measures: Seq<ShellMeasure>) -> bool {
    exists|c: int|
        0 <= c < shells.len() && f32_lt(F32_ZERO_BITS, measures[c].area) && !f32_lt(F32_EPSILON_BITS, measures[c].volume)
            && #[trigger] reports_flat_shell(f, shells[c], c)
}

/// Every shell with surface area above zero but volume not above binary32
/// epsilon is reported; no other shell is, and the findings follow the
/// order of the shells.
pub proof fn law_flat_shells_reported(shells: Seq<Seq<usize>>, measures: Seq<ShellMeasure>)
    requires
        shells.len() <= u32::MAX,
    ensures
        forall|c: int|
            #![trigger measures[c]]
            0 <= c < shells.len() && f32_lt(F32_ZERO_BITS, measures[c].area) && !f32_lt(F32_EPSILON_BITS, measures[c].volume)
                ==> exists|j: int|
                0 <= j < zero_volume_findings(shells, measures).len() && #[trigger] reports_flat_shell(
                    zero_volume_findings(shells, measures)[j],
                    shells[c],
                    c,
                ),
        forall|j: int|
            0 <= j < zero_volume_findings(shells, measures).len() ==> #[trigger] reports_a_flat_shell(
                zero_volume_findings(shells, measures)[j],
                shells,
                measures,
            ),
        forall|j: int, k: int|
            0 <= j < k < zero_volume_findings(shells, measures).len() ==> (#[trigger] zero_volume_findings(shells, measures)[j]).metrics[0].1->Count_0
                < (#[trigger] zero_volume_findings(shells, measures)[k]).metrics[0].1->Count_0,
{
    let f = |c: int| if flat_shell(measures[c]) { Some(zero_volume_view(shells[c], c, measures[c])) } else { None };
    let r = zero_volume_findings(shells, measures);
    let idx = lemma_select_indices_positions(shells.len() as int, f);
    assert forall|c: int|
        #![trigger measures[c]]
        0 <= c < shells.len() && f32_lt(F32_ZERO_BITS, measures[c].area) && !f32_lt(F32_EPSILON_BITS, measures[c].volume)
            implies exists|j: int|
            0 <= j < zero_volume_findings(shells, measures).len() && #[trigger] reports_flat_shell(
                zero_volume_findings(shells, measures)[j],
                shells[c],
                c,
            ) by {
        assert(f(c) is Some);
        let j = choose|j: int| 0 <= j < idx.len() && idx[j] == c;
        assert(r[j] == f(idx[j])->0);
        assert(reports_flat_shell(r[j], shells[c], c));
    }
    assert forall|j: int| 0 <= j < zero_volume_findings(shells, measures).len() implies #[trigger] reports_a_flat_shell(
        zero_volume_findings(shells, measures)[j],
        shells,
        measures,
    ) by {
        let c = idx[j];
        assert(f(c) is Some);
        assert(r[j] == f(c)->0);
        assert(reports_flat_shell(r[j], shells[c], c));
    }
    assert forall|j: int, k: int| 0 <= j < k < r.len() implies (#[trigger] r[j]).metrics[0].1->Count_0
        < (#[trigger] r[k]).metrics[0].1->Count_0 by {
        assert(r[j] == f(idx[j])->0);
        assert(r[k] == f(idx[k])->0);
        assert(idx[j] < idx[k]);
        assert(r[j].metrics[0].1->Count_0 == idx[j]);
        assert(r[k].metrics[0].1->Count_0 == idx[k]);
    }
}

/// The finding reports the edge with key `k` and measure `m` as too short.
pub open spec fn reports_edge(f: FindingView, k: u64, m: EdgeLength, threshold: u32, threshold_text: Seq<char>) -> bool {
    &&& f.rule_id == "mesh/tiny-edge"@
    &&& f.message == "edge "@ + decimal((k / 0x1_0000_0000) as nat) + "-"@ + decimal((k % 0x1_0000_0000) as nat) + " is "@
        + m.text@ + " mm; below "@ + threshold_text + " mm"@
    &&& f.metrics[2] == ("length_mm"@, MetricValue::Single(m.length))
    &&& f.metrics[3] == ("threshold_mm"@, MetricValue::Single(threshold))
}

/// The finding reports one of the edges measured shorter than the threshold.
pub open spec fn reports_a_short_edge(f: FindingView, keys: Seq<u64>, lengths: Seq<EdgeLength>, threshold: u32, threshold_text: Seq<char>) -> bool {
    exists|e: int|
        0 <= e < keys.len() && f32_lt(lengths[e].length, threshold) && #[trigger] reports_edge(f, keys[e], lengths[e], threshold, threshold_text)
}

/// Every edge (in increasing order of its vertex pair) measured shorter than
/// the threshold is reported with its vertices, its length as written and
/// the threshold; no other edge is.
pub proof fn law_short_edges_reported(faces: Seq<[u32; 3]>, lengths: Seq<EdgeLength>, threshold: u32, threshold_text: Seq<char>)
    ensures
        forall|e: int|
            #![trigger lengths[e]]
            0 <= e < ascending(edge_keys(faces)).len() && f32_lt(lengths[e].length, threshold) ==> exists|j: int|
                0 <= j < tiny_edge_findings(faces, lengths, threshold, threshold_text).len() && #[trigger] reports_edge(
                    tiny_edge_findings(faces, lengths, threshold, threshold_text)[j],
                    ascending(edge_keys(faces))[e],
                    lengths[e],
                    threshold,
                    threshold_text,
                ),
        forall|j: int|
            0 <= j < tiny_edge_findings(faces, lengths, threshold, threshold_text).len() ==> #[trigger] reports_a_short_edge(
                tiny_edge_findings(faces, lengths, threshold, threshold_text)[j],
                ascending(edge_keys(faces)),
                lengths,
                threshold,
                threshold_text,
            ),
{
    let keys = ascending(edge_keys(faces));
    let f = |k: int| if f32_lt(lengths[k].length, threshold) { Some(tiny_edge_view(faces, keys[k], lengths[k], threshold, threshold_text)) } else { None };
    let r = tiny_edge_findings(faces, lengths, threshold, threshold_text);
    let idx = lemma_select_indices_positions(keys.len() as int, f);
    assert forall|e: int|
        #![trigger lengths[e]]
        0 <= e < keys.len() && f32_lt(lengths[e].length, threshold) implies exists|j: int|
            0 <= j < r.len() && #[trigger] reports_edge(r[j], keys[e], lengths[e], threshold, threshold_text) by {
        assert(f(e) is Some);
        let j = choose|j: int| 0 <= j < idx.len() && idx[j] == e;
        assert(r[j] == f(idx[j])->0);
        assert(reports_edge(r[j], keys[e], lengths[e], threshold, threshold_text));
    }
    assert forall|j: int| 0 <= j < r.len() implies #[trigger] reports_a_short_edge(r[j], keys, lengths, threshold, threshold_text) by {
        let e = idx[j];
        assert(f(e) is Some);
        assert(r[j] == f(e)->0);
        assert(reports_edge(r[j], keys[e], lengths[e], threshold, threshold_text));
    }
}


/// Where the values of `select(s, f)` come from: strictly increasing
/// positions of `s`, exactly those at which `f` gives a value.
pub proof fn lemma_select_positions<A, B>(s: Seq<A>, f: spec_fn(A) -> Option<B>) -> (idx: Seq<int>)
    ensures
        idx.len() == select(s, f).len(),
        forall|j: int| 0 <= j < idx.len() ==> 0 <= #[trigger] idx[j] < s.len() && f(s[idx[j]]) is Some && select(s, f)[j]
            == f(s[idx[j]])->0,
        forall|j: int, k: int| 0 <= j < k < idx.len() ==> #[trigger] idx[j] < #[trigger] idx[k],
        forall|i: int| 0 <= i < s.len() && #[trigger] f(s[i]) is Some ==> exists|j: int| 0 <= j < idx.len() && idx[j] == i,
    decreases s.len(),
{
    if s.len() == 0 {
        Seq::empty()
    } else {
        let pre = s.drop_last();
        let prev = lemma_select_positions(pre, f);
        let r = select(pre, f);
        assert(s.last() == s[s.len() - 1]);
        assert forall|i: int| 0 <= i < pre.len() implies pre[i] == s[i] by {}
        if f(s.last()) is Some {
            let idx = prev.push(s.len() - 1);
            assert forall|j: int| 0 <= j < idx.len() implies 0 <= #[trigger] idx[j] < s.len() && f(s[idx[j]]) is Some
                && select(s, f)[j] == f(s[idx[j]])->0 by {
                if j < prev.len() {
                    assert(idx[j] == prev[j]);
                    assert(select(s, f)[j] == r[j]);
                    assert(pre[prev[j]] == s[prev[j]]);
                }
            }
            assert forall|i: int| 0 <= i < s.len() && #[trigger] f(s[i]) is Some implies exists|j: int| 0 <= j < idx.len() && idx[j] == i by {
                if i < s.len() - 1 {
                    assert(pre[i] == s[i]);
                    assert(f(pre[i]) is Some);
                    let j = choose|j: int| 0 <= j < prev.len() && prev[j] == i;
                    assert(idx[j] == i);
                } else {
                    assert(idx[prev.len() as int] == i);
                }
            }
            idx
        } else {
            assert forall|j: int| 0 <= j < prev.len() implies 0 <= #[trigger] prev[j] < s.len() && f(s[prev[j]]) is Some
                && select(s, f)[j] == f(s[prev[j]])->0 by {
                assert(pre[prev[j]] == s[prev[j]]);
            }
            assert forall|i: int| 0 <= i < s.len() && #[trigger] f(s[i]) is Some implies exists|j: int| 0 <= j < prev.len() && prev[j] == i by {
                if i < s.len() - 1 {
                    assert(pre[i] == s[i]);
                    assert(f(pre[i]) is Some);
                }
            }
            prev
        }
    }
}


/// The per-rule cap keeps the earliest findings of each rule: a finding that
/// has fewer than `limit` findings of its rule before it is kept, at its
/// place among the kept findings, and one with `limit` or more before it is
/// not kept.
pub proof fn law_cap_keeps_earliest(fs: Seq<FindingView>, limit: nat, i: int)
    requires
        0 <= i < fs.len(),
    ensures
        (limit == 0 || rule_count(fs.take(i), fs[i].rule_id) < limit) ==> exists|j: int|
            0 <= j < capped_findings(fs, limit).len() && capped_findings(fs, limit)[j] == fs[i],
        !(limit == 0 || rule_count(fs.take(i), fs[i].rule_id) < limit) ==> select_indices(
            fs.len() as int,
            |x: int| if within_cap(fs, x, limit) { Some(fs[x]) } else { None },
        ).len() < fs.len(),
{
    let f = |x: int| if within_cap(fs, x, limit) { Some(fs[x]) } else { None };
    let kept = select_indices(fs.len() as int, f);
    let notes = select(
        rules_in_order(fs),
        |r: Seq<char>| if limit > 0 && rule_count(fs, r) > limit { Some(truncation_view(r, (rule_count(fs, r) - limit) as nat, limit)) } else { None },
    );
    let idx = lemma_select_indices_positions(fs.len() as int, f);
    if limit == 0 || rule_count(fs.take(i), fs[i].rule_id) < limit {
        assert(f(i) is Some);
        let j = choose|j: int| 0 <= j < idx.len() && idx[j] == i;
        assert(kept[j] == fs[i]);
        assert(capped_findings(fs, limit) == kept + notes);
        assert((kept + notes)[j] == kept[j]);
    } else {
        lemma_cap_len_missing(fs.len() as int, f, i);
    }
}

proof fn lemma_cap_len_missing<B>(n: int, f: spec_fn(int) -> Option<B>, i: int)
    requires
        0 <= i < n,
        f(i) is None,
    ensures
        select_indices(n, f).len() < n,
    decreases n,
{
    if i == n - 1 {
        lemma_select_indices_len(n - 1, f);
    } else {
        lemma_cap_len_missing(n - 1, f, i);
    }
}

proof fn lemma_select_indices_len<B>(n: int, f: spec_fn(int) -> Option<B>)
    requires
        0 <= n,
    ensures
        select_indices(n, f).len() <= n,
    decreases n,
{
    if n > 0 {
        lemma_select_indices_len(n - 1, f);
    }
}


/// Under a positive limit, every rule with more findings than the limit gets
/// a note, after the kept findings, saying how many of its findings were
/// left out; a rule within the limit gets none.
pub proof fn law_cap_notes_overflowing_rules(fs: Seq<FindingView>, limit: nat, rule: Seq<char>)
    requires
        limit > 0,
    ensures
        rule_count(fs, rule) > limit ==> exists|j: int|
            0 <= j < capped_findings(fs, limit).len() && #[trigger] capped_findings(fs, limit)[j].rule_id == rule + "-truncated"@
                && capped_findings(fs, limit)[j].message == decimal((rule_count(fs, rule) - limit) as nat) + " additional "@
                + rule + " findings omitted after limit "@ + decimal(limit),
        rule_count(fs, rule) <= limit ==> forall|j: int|
            0 <= j < capped_findings(fs, limit).len() ==> #[trigger] capped_findings(fs, limit)[j].rule_id != rule + "-truncated"@
                || rule_count(fs, capped_findings(fs, limit)[j].rule_id) > 0,
{
    let f = |x: int| if within_cap(fs, x, limit) { Some(fs[x]) } else { None };
    let note = |r: Seq<char>| if limit > 0 && rule_count(fs, r) > limit { Some(truncation_view(r, (rule_count(fs, r) - limit) as nat, limit)) } else { None };
    let kept = select_indices(fs.len() as int, f);
    let rs = rules_in_order(fs);
    let notes = select(rs, note);
    lemma_rules_in_order(fs);
    let idx = lemma_select_positions(rs, note);
    assert(capped_findings(fs, limit) == kept + notes);
    if rule_count(fs, rule) > limit {
        assert(rs.contains(rule));
        let q = choose|q: int| 0 <= q < rs.len() && rs[q] == rule;
        assert(note(rs[q]) is Some);
        let x = choose|x: int| 0 <= x < idx.len() && idx[x] == q;
        assert(notes[x] == note(rule)->0);
        assert((kept + notes)[kept.len() + x] == notes[x]);
        let j = kept.len() + x;
        assert(capped_findings(fs, limit)[j] == truncation_view(rule, (rule_count(fs, rule) - limit) as nat, limit));
        assert(0 <= j < capped_findings(fs, limit).len());
        assert(capped_findings(fs, limit)[j].rule_id == rule + "-truncated"@);
        assert(capped_findings(fs, limit)[j].message == decimal((rule_count(fs, rule) - limit) as nat) + " additional "@
            + rule + " findings omitted after limit "@ + decimal(limit));
    } else {
        assert forall|j: int| 0 <= j < capped_findings(fs, limit).len() implies #[trigger] capped_findings(fs, limit)[j].rule_id
            != rule + "-truncated"@ || rule_count(fs, capped_findings(fs, limit)[j].rule_id) > 0 by {
            if j < kept.len() {
                let kidx = lemma_select_indices_positions(fs.len() as int, f);
                assert((kept + notes)[j] == kept[j]);
                assert(kept[j] == fs[kidx[j]]);
                lemma_rule_count_member(fs, kidx[j]);
            } else {
                let x = j - kept.len();
                assert((kept + notes)[j] == notes[x]);
                let r = rs[idx[x]];
                assert(notes[x] == note(r)->0);
                if notes[x].rule_id == rule + "-truncated"@ {
                    assert((r + "-truncated"@).len() == (rule + "-truncated"@).len());
                    assert(r =~= (r + "-truncated"@).subrange(0, r.len() as int));
                    assert(rule =~= (rule + "-truncated"@).subrange(0, rule.len() as int));
                    assert(r == rule);
                }
            }
        }
    }
}

proof fn lemma_rule_count_member(fs: Seq<FindingView>, i: int)
    requires
        0 <= i < fs.len(),
    ensures
        rule_count(fs, fs[i].rule_id) > 0,
    decreases fs.len(),
{
    if i < fs.len() - 1 {
        lemma_rule_count_member(fs.drop_last(), i);
        assert(fs.drop_last()[i] == fs[i]);
    }
}

} // verus!
