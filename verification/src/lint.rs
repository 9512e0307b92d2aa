use vstd::prelude::*;
use crate::model::{error_text, findings_view, Finding, FindingView, Mesh, MeshLintError, Severity};
use crate::boundary::{boundary_loop_view, boundary_loop_views, boundary_loops_of, check_boundary_loops};
use crate::checks::{
    boundary_edges, check_degenerate_faces, check_duplicate_faces, check_inverted_normals, check_non_manifold,
    check_normal_consistency, degenerate_findings, duplicate_findings, inconsistent_findings, inverted_view,
    non_manifold_findings, self_intersection_finding, self_intersection_view, degenerate_entry, duplicate_entry,
    non_manifold_entry, inconsistent_entry, select_indices,
};
use crate::graph::lists_view;
use crate::ieee::{f32_le, F32_ZERO_BITS};
use crate::layers::{check_large_cross_sections, cross_section_findings, cross_section_view, sections_in_order, LayerSection};
use crate::shells::{are_shells, check_shells, loose_shell_view, primary_among, shell_findings, shell_lens, shells_summary_view};
use crate::quality::{
    bad_aspect_findings, cap_findings_per_rule, capped_findings, check_bad_aspect_triangles, check_tiny_edges,
    check_units, check_zero_volume_shells, self_intersection_skipped_finding, skipped_view, tiny_edge_findings,
    unit_findings, zero_volume_findings, AspectMeasure, EdgeLength, Extent, ShellMeasure, bad_aspect_view, flat_shell,
    lemma_cap_drops_trailing_rule, lemma_rules_start_add, lemma_select_all_satisfy, lemma_select_indices_all,
    rule_starts, rules_start, tiny_edge_view, without_rule, zero_volume_view,
};
use crate::sort::ascending;
use crate::topology::edge_keys;
use crate::text::{chars_of, decimal, decimal_string, string_from_chars};

verus! {

// ---------------------------------------------------------------------------
// Names and formats

/// The ASCII lower-case form of a character (other characters unchanged).
pub open spec fn ascii_lower(c: char) -> char {
    if 'A' <= c && c <= 'Z' {
        ((c as u32 + 32) as u8) as char
    } else {
        c
    }
}

/// Equal up to ASCII case.
pub open spec fn same_ignoring_ascii_case(a: Seq<char>, b: Seq<char>) -> bool {
    a.len() == b.len() && forall|i: int| 0 <= i < a.len() ==> ascii_lower(#[trigger] a[i]) == ascii_lower(b[i])
}

fn lower_char(c: char) -> (r: char)
    ensures
        r == ascii_lower(c),
{
    if 'A' <= c && c <= 'Z' {
        let code = c as u32 + 32;
        (code as u8) as char
    } else {
        c
    }
}

/// The ASCII lower-case form of a string.
pub fn ascii_lowercase(s: &str) -> (r: String)
    ensures
        r@ == s@.map_values(|c: char| ascii_lower(c)),
{
    let cs = chars_of(s);
    let mut out: Vec<char> = Vec::new();
    let mut i: usize = 0;
    while i < cs.len()
        invariant
            cs@ == s@,
            0 <= i <= cs@.len(),
            out@ == cs@.take(i as int).map_values(|c: char| ascii_lower(c)),
        decreases cs@.len() - i,
    {
        out.push(lower_char(cs[i]));
        proof {
            assert(out@ =~= cs@.take(i + 1).map_values(|c: char| ascii_lower(c)));
        }
        i = i + 1;
    }
    proof {
        assert(cs@.take(cs@.len() as int) =~= cs@);
    }
    string_from_chars(&out)
}

/// Whether two strings are equal up to ASCII case.
pub fn eq_ignore_ascii_case(a: &str, b: &str) -> (r: bool)
    ensures
        r == same_ignoring_ascii_case(a@, b@),
{
    let x = chars_of(a);
    let y = chars_of(b);
    if x.len() != y.len() {
        return false;
    }
    let mut i: usize = 0;
    while i < x.len()
        invariant
            x@ == a@,
            y@ == b@,
            x@.len() == y@.len(),
            0 <= i <= x@.len(),
            forall|j: int| 0 <= j < i ==> ascii_lower(#[trigger] x@[j]) == ascii_lower(y@[j]),
        decreases x@.len() - i,
    {
        if lower_char(x[i]) != lower_char(y[i]) {
            return false;
        }
        i = i + 1;
    }
    true
}

/// The process profile used when none is given.
pub fn default_process() -> (r: String)
    ensures
        r@ == "sla"@,
{
    String::from_str("sla")
}

/// The SLA checks run for the process named `sla`, in any ASCII case.
pub fn is_sla(process: &str) -> (r: bool)
    ensures
        r == same_ignoring_ascii_case(process@, "sla"@),
{
    eq_ignore_ascii_case(process, "sla")
}

/// Whether a mesh format can be linted: only `stl`, compared in lower case;
/// any other format is refused under its lower-case name.
pub fn lint_format(format: &str) -> (r: Result<(), MeshLintError>)
    ensures
        format@.map_values(|c: char| ascii_lower(c)) == "stl"@ <==> r is Ok,
        r matches Err(e) ==> e == MeshLintError::UnsupportedFormat(e->UnsupportedFormat_0) && e->UnsupportedFormat_0@
            == format@.map_values(|c: char| ascii_lower(c)),
{
    let lower = ascii_lowercase(format);
    if eq_exact(lower.as_str(), "stl") {
        Ok(())
    } else {
        Err(MeshLintError::UnsupportedFormat(lower))
    }
}

/// Whether a mesh format can be repaired: only `stl`, in any ASCII case;
/// any other format is refused under the name as given.
pub fn repair_format(format: &str) -> (r: Result<(), MeshLintError>)
    ensures
        same_ignoring_ascii_case(format@, "stl"@) <==> r is Ok,
        r matches Err(e) ==> e == MeshLintError::UnsupportedFormat(e->UnsupportedFormat_0) && e->UnsupportedFormat_0@ == format@,
{
    if eq_ignore_ascii_case(format, "stl") {
        Ok(())
    } else {
        Err(MeshLintError::UnsupportedFormat(String::from_str(format)))
    }
}

fn eq_exact(a: &str, b: &str) -> (r: bool)
    ensures
        r == (a@ == b@),
{
    let x = chars_of(a);
    let y = chars_of(b);
    if x.len() != y.len() {
        return false;
    }
    let mut i: usize = 0;
    while i < x.len()
        invariant
            x@ == a@,
            y@ == b@,
            x@.len() == y@.len(),
            0 <= i <= x@.len(),
            forall|j: int| 0 <= j < i ==> #[trigger] x@[j] == y@[j],
        decreases x@.len() - i,
    {
        if x[i] != y[i] {
            return false;
        }
        i = i + 1;
    }
    proof {
        assert(x@ =~= y@);
    }
    true
}

// ---------------------------------------------------------------------------
// Report summaries

/// How many of the findings have the given severity.
pub open spec fn severity_count(findings: Seq<FindingView>, severity: Severity) -> nat
    decreases findings.len(),
{
    if findings.len() == 0 {
        0
    } else {
        severity_count(findings.drop_last(), severity) + if findings.last().severity == severity { 1nat } else { 0nat }
    }
}

/// Counts the findings of one severity.
pub fn count_severity(findings: &Vec<Finding>, severity: Severity) -> (n: usize)
    ensures
        n == severity_count(findings_view(findings@), severity),
{
    let ghost fv = findings_view(findings@);
    let mut n: usize = 0;
    let mut i: usize = 0;
    while i < findings.len()
        invariant
            fv == findings_view(findings@),
            0 <= i <= findings@.len(),
            n == severity_count(fv.take(i as int), severity),
            n <= i,
        decreases findings@.len() - i,
    {
        proof {
            assert(fv.take(i + 1).drop_last() =~= fv.take(i as int));
            assert(fv.take(i + 1).last() == findings@[i as int]@);
        }
        if findings[i].severity == severity {
            n = n + 1;
        }
        i = i + 1;
    }
    proof {
        assert(fv.take(findings@.len() as int) =~= fv);
    }
    n
}

/// The face ids joined with ", ".
pub open spec fn joined_ids(ids: Seq<u32>) -> Seq<char>
    decreases ids.len(),
{
    if ids.len() == 0 {
        Seq::empty()
    } else if ids.len() == 1 {
        decimal(ids[0] as nat)
    } else {
        joined_ids(ids.drop_last()) + ", "@ + decimal(ids.last() as nat)
    }
}

/// How a finding's faces are shown after its message: nothing for none, the
/// face for one, and for more the first four faces and how many others.
pub open spec fn face_context(ids: Seq<u32>) -> Seq<char> {
    if ids.len() == 0 {
        Seq::empty()
    } else if ids.len() == 1 {
        "(face "@ + decimal(ids[0] as nat) + ")"@
    } else if ids.len() <= 4 {
        "(faces "@ + joined_ids(ids) + ")"@
    } else {
        "(faces "@ + joined_ids(ids.take(4)) + ", +"@ + decimal((ids.len() - 4) as nat) + " more)"@
    }
}

fn push_str(out: &mut Vec<char>, s: &str)
    ensures
        final(out)@ == old(out)@ + s@,
{
    let cs = chars_of(s);
    let mut i: usize = 0;
    let ghost start = out@;
    while i < cs.len()
        invariant
            cs@ == s@,
            0 <= i <= cs@.len(),
            out@ == start + cs@.take(i as int),
        decreases cs@.len() - i,
    {
        out.push(cs[i]);
        proof {
            assert(out@ =~= start + cs@.take(i + 1));
        }
        i = i + 1;
    }
    proof {
        assert(cs@.take(cs@.len() as int) =~= cs@);
    }
}

/// The faces of a finding as shown after its message in text reports.
pub fn format_face_context(face_ids: &Vec<u32>) -> (s: String)
    ensures
        s@ == face_context(face_ids@),
{
    let n = face_ids.len();
    let mut out: Vec<char> = Vec::new();
    if n == 0 {
        return string_from_chars(&out);
    }
    if n == 1 {
        push_str(&mut out, "(face ");
    } else {
        push_str(&mut out, "(faces ");
    }
    let shown = if n <= 4 { n } else { 4 };
    let ghost head = out@;
    let mut i: usize = 0;
    while i < shown
        invariant
            n == face_ids@.len(),
            shown == if n <= 4 { n } else { 4 },
            0 <= i <= shown,
            out@ == head + joined_ids(face_ids@.take(i as int)),
        decreases shown - i,
    {
        let ghost before = out@;
        if i > 0 {
            push_str(&mut out, ", ");
        }
        let d = decimal_string(face_ids[i] as u64);
        push_str(&mut out, d.as_str());
        proof {
            let t = face_ids@.take(i + 1);
            assert(t.drop_last() =~= face_ids@.take(i as int));
            assert(t.last() == face_ids@[i as int]);
            if i == 0 {
                assert(joined_ids(face_ids@.take(0)) =~= Seq::<char>::empty());
                assert(t[0] == face_ids@[0]);
            }
            assert(out@ =~= head + joined_ids(t));
        }
        i = i + 1;
    }
    if n > 4 {
        push_str(&mut out, ", +");
        let d = decimal_string((n - 4) as u64);
        push_str(&mut out, d.as_str());
        push_str(&mut out, " more)");
    } else {
        push_str(&mut out, ")");
    }
    proof {
        if n <= 4 {
            assert(face_ids@.take(n as int) =~= face_ids@);
        }
        if n == 1 {
            assert(joined_ids(face_ids@) == decimal(face_ids@[0] as nat));
        }
        assert(out@ =~= face_context(face_ids@));
    }
    string_from_chars(&out)
}

// ---------------------------------------------------------------------------
// Linting

/// What the checks need to know of a mesh's geometry, measured in
/// floating point by the caller and given as IEEE-754 bit patterns.
#[derive(Clone, Debug)]
pub struct Measurements {
    /// The area of each face (binary32).
    pub face_areas: Vec<u32>,
    /// The signed volume of the whole mesh (binary32).
    pub signed_volume: u32,
    /// The pairs of faces found to cross each other, in the order found.
    pub intersections: Vec<(u32, u32)>,
    /// The shells of the mesh, as `connected_shells` lists them.
    pub shells: Vec<Vec<usize>>,
    /// The size estimate of each shell (binary32).
    pub shell_sizes: Vec<u32>,
    /// The tiny-shell threshold (binary32) and how messages write it.
    pub tiny_shell_volume: u32,
    pub tiny_shell_text: String,
    /// The projected area of each layer, in layer order.
    pub cross_sections: Vec<LayerSection>,
    /// The large cross-section threshold (binary32) and how messages write it.
    pub large_cross_section: u32,
    pub large_cross_section_text: String,
    /// The length of each edge of `mesh_edges` (binary32), and the tiny-edge
    /// threshold and how messages write it.
    pub edge_lengths: Vec<EdgeLength>,
    pub tiny_edge: u32,
    pub tiny_edge_text: String,
    /// The aspect ratio of each face, and the threshold and how messages write it.
    pub aspects: Vec<AspectMeasure>,
    pub bad_aspect_ratio: u32,
    pub bad_aspect_text: String,
    /// The enclosed volume and surface area of each shell.
    pub shell_measures: Vec<ShellMeasure>,
    /// The bounding box of the vertices, if there are any, and the expected
    /// range of its largest side (binary32).
    pub extent: Option<Extent>,
    pub suspicious_min_dimension: u32,
    pub suspicious_max_dimension: u32,
    /// When the self-intersection search stopped at its budget: the tests
    /// attempted and the budget.
    pub intersection_cutoff: Option<(u64, u64)>,
    /// At most this many findings per rule are kept (0 keeps all).
    pub max_findings_per_rule: u64,
}

/// The inverted-winding findings for a signed volume.
pub open spec fn inverted_findings(volume: u32) -> Seq<FindingView> {
    if f32_le(F32_ZERO_BITS, volume) {
        Seq::empty()
    } else {
        seq![inverted_view(volume)]
    }
}

/// One finding per pair of crossing faces, in the order given.
pub open spec fn intersection_findings(pairs: Seq<(u32, u32)>) -> Seq<FindingView> {
    pairs.map_values(|p: (u32, u32)| self_intersection_view(p.0, p.1))
}

/// The warning for a self-intersection search cut short, if it was.
pub open spec fn cutoff_findings(faces: nat, cutoff: Option<(u64, u64)>) -> Seq<FindingView> {
    match cutoff {
        Some((attempted, max_tests)) => seq![skipped_view(faces, attempted as nat, max_tests as nat)],
        None => Seq::empty(),
    }
}

/// All findings for a mesh, rule by rule in a fixed order, given the
/// boundary components of its boundary edges, before the per-rule cap.
pub open spec fn all_findings(
    faces: Seq<[u32; 3]>,
    sla: bool,
    m: Measurements,
    boundary_components: Seq<Seq<usize>>,
) -> Seq<FindingView> {
    degenerate_findings(faces, m.face_areas@) + duplicate_findings(faces) + tiny_edge_findings(
        faces,
        m.edge_lengths@,
        m.tiny_edge,
        m.tiny_edge_text@,
    ) + bad_aspect_findings(m.aspects@, m.bad_aspect_ratio, m.bad_aspect_text@) + non_manifold_findings(faces)
        + boundary_loop_views(boundary_edges(faces), boundary_components) + inconsistent_findings(faces)
        + inverted_findings(m.signed_volume) + zero_volume_findings(lists_view(m.shells@), m.shell_measures@)
        + unit_findings(m.extent, m.suspicious_min_dimension, m.suspicious_max_dimension) + intersection_findings(
        m.intersections@,
    ) + cutoff_findings(faces.len(), m.intersection_cutoff) + shell_findings(
        lists_view(m.shells@),
        m.shell_sizes@,
        m.tiny_shell_volume,
        m.tiny_shell_text@,
    ) + if sla {
        cross_section_findings(m.cross_sections@, m.large_cross_section, m.large_cross_section_text@)
    } else {
        Seq::empty()
    }
}

/// Every finding reported whatever the process is of a `mesh/` rule.
proof fn lemma_mesh_rules(faces: Seq<[u32; 3]>, m: Measurements, boundary_components: Seq<Seq<usize>>)
    ensures
        rules_start(all_findings(faces, false, m, boundary_components), 'm'),
{
    reveal_strlit("mesh/degenerate-face");
    reveal_strlit("mesh/duplicate-face");
    reveal_strlit("mesh/tiny-edge");
    reveal_strlit("mesh/bad-aspect-triangle");
    reveal_strlit("mesh/non-manifold");
    reveal_strlit("mesh/boundary-loop");
    reveal_strlit("mesh/inconsistent-normals");
    reveal_strlit("mesh/inverted-normals");
    reveal_strlit("mesh/zero-volume-shell");
    reveal_strlit("mesh/unit-suspicious");
    reveal_strlit("mesh/self-intersection");
    reveal_strlit("mesh/self-intersection-skipped");
    reveal_strlit("mesh/tiny-shell");
    reveal_strlit("mesh/disconnected-shell");
    reveal_strlit("mesh/disconnected-shells-summary");
    let pm = |f: FindingView| rule_starts(f, 'm');
    let areas = m.face_areas@;
    let keys = ascending(edge_keys(faces));
    let shells = lists_view(m.shells@);
    let es = boundary_edges(faces);
    let l1 = degenerate_findings(faces, areas);
    lemma_select_indices_all(faces.len() as int, |i: int| degenerate_entry(faces, areas, i), pm);
    assert forall|j: int| 0 <= j < l1.len() implies #[trigger] rule_starts(l1[j], 'm') by { assert(pm(l1[j])); }
    let l2 = duplicate_findings(faces);
    lemma_select_indices_all(faces.len() as int, |i: int| duplicate_entry(faces, i), pm);
    assert forall|j: int| 0 <= j < l2.len() implies #[trigger] rule_starts(l2[j], 'm') by { assert(pm(l2[j])); }
    let l3 = tiny_edge_findings(faces, m.edge_lengths@, m.tiny_edge, m.tiny_edge_text@);
    lemma_select_indices_all(
        keys.len() as int,
        |k: int| if crate::ieee::f32_lt(m.edge_lengths@[k].length, m.tiny_edge) {
            Some(tiny_edge_view(faces, keys[k], m.edge_lengths@[k], m.tiny_edge, m.tiny_edge_text@))
        } else {
            None
        },
        pm,
    );
    assert forall|j: int| 0 <= j < l3.len() implies #[trigger] rule_starts(l3[j], 'm') by { assert(pm(l3[j])); }
    let l4 = bad_aspect_findings(m.aspects@, m.bad_aspect_ratio, m.bad_aspect_text@);
    lemma_select_indices_all(
        m.aspects@.len() as int,
        |i: int| if crate::ieee::f32_lt(m.bad_aspect_ratio, m.aspects@[i].ratio) {
            Some(bad_aspect_view(i, m.aspects@[i], m.bad_aspect_ratio, m.bad_aspect_text@))
        } else {
            None
        },
        pm,
    );
    assert forall|j: int| 0 <= j < l4.len() implies #[trigger] rule_starts(l4[j], 'm') by { assert(pm(l4[j])); }
    let l5 = non_manifold_findings(faces);
    lemma_select_all_satisfy(keys, |k: u64| non_manifold_entry(faces, k), pm);
    assert forall|j: int| 0 <= j < l5.len() implies #[trigger] rule_starts(l5[j], 'm') by { assert(pm(l5[j])); }
    let l6 = boundary_loop_views(es, boundary_components);
    assert forall|j: int| 0 <= j < l6.len() implies #[trigger] rule_starts(l6[j], 'm') by {
        assert(l6[j] == boundary_loop_view(es, boundary_components[j], j));
    }
    let l7 = inconsistent_findings(faces);
    lemma_select_all_satisfy(keys, |k: u64| inconsistent_entry(faces, k), pm);
    assert forall|j: int| 0 <= j < l7.len() implies #[trigger] rule_starts(l7[j], 'm') by { assert(pm(l7[j])); }
    let l8 = inverted_findings(m.signed_volume);
    let l9 = zero_volume_findings(shells, m.shell_measures@);
    lemma_select_indices_all(
        shells.len() as int,
        |c: int| if flat_shell(m.shell_measures@[c]) { Some(zero_volume_view(shells[c], c, m.shell_measures@[c])) } else { None },
        pm,
    );
    assert forall|j: int| 0 <= j < l9.len() implies #[trigger] rule_starts(l9[j], 'm') by { assert(pm(l9[j])); }
    let l10 = unit_findings(m.extent, m.suspicious_min_dimension, m.suspicious_max_dimension);
    let l11 = intersection_findings(m.intersections@);
    assert forall|j: int| 0 <= j < l11.len() implies #[trigger] rule_starts(l11[j], 'm') by {
        assert(l11[j] == self_intersection_view(m.intersections@[j].0, m.intersections@[j].1));
    }
    let l12 = cutoff_findings(faces.len(), m.intersection_cutoff);
    let l13 = shell_findings(shells, m.shell_sizes@, m.tiny_shell_volume, m.tiny_shell_text@);
    let primary = primary_among(m.shell_sizes@, shell_lens(shells), shells.len() as int);
    let loose = select_indices(
        shells.len() as int,
        |i: int| if primary == Some(i) { None } else { Some(loose_shell_view(shells[i], i, m.shell_sizes@[i], m.tiny_shell_volume, m.tiny_shell_text@)) },
    );
    lemma_select_indices_all(
        shells.len() as int,
        |i: int| if primary == Some(i) { None } else { Some(loose_shell_view(shells[i], i, m.shell_sizes@[i], m.tiny_shell_volume, m.tiny_shell_text@)) },
        pm,
    );
    assert forall|j: int| 0 <= j < l13.len() implies #[trigger] rule_starts(l13[j], 'm') by {
        if j < loose.len() {
            assert(pm(loose[j]));
            assert(l13[j] == loose[j]);
        }
    }
    lemma_rules_start_add(l1, l2, 'm');
    lemma_rules_start_add(l1 + l2, l3, 'm');
    lemma_rules_start_add(l1 + l2 + l3, l4, 'm');
    lemma_rules_start_add(l1 + l2 + l3 + l4, l5, 'm');
    lemma_rules_start_add(l1 + l2 + l3 + l4 + l5, l6, 'm');
    lemma_rules_start_add(l1 + l2 + l3 + l4 + l5 + l6, l7, 'm');
    lemma_rules_start_add(l1 + l2 + l3 + l4 + l5 + l6 + l7, l8, 'm');
    lemma_rules_start_add(l1 + l2 + l3 + l4 + l5 + l6 + l7 + l8, l9, 'm');
    lemma_rules_start_add(l1 + l2 + l3 + l4 + l5 + l6 + l7 + l8 + l9, l10, 'm');
    lemma_rules_start_add(l1 + l2 + l3 + l4 + l5 + l6 + l7 + l8 + l9 + l10, l11, 'm');
    lemma_rules_start_add(l1 + l2 + l3 + l4 + l5 + l6 + l7 + l8 + l9 + l10 + l11, l12, 'm');
    lemma_rules_start_add(l1 + l2 + l3 + l4 + l5 + l6 + l7 + l8 + l9 + l10 + l11 + l12, l13, 'm');
    lemma_rules_start_add(l1 + l2 + l3 + l4 + l5 + l6 + l7 + l8 + l9 + l10 + l11 + l12 + l13, Seq::empty(), 'm');
}

/// The process decides only whether the large cross-section findings are
/// added at the end: the other findings are the same for every process, and
/// so is the report once those findings and the note that some of them were
/// left out are taken away. The process `SLA` is the SLA process.
pub proof fn law_process_only_adds_cross_sections(faces: Seq<[u32; 3]>, m: Measurements, boundary_components: Seq<Seq<usize>>)
    ensures
        all_findings(faces, true, m, boundary_components) == all_findings(faces, false, m, boundary_components)
            + cross_section_findings(m.cross_sections@, m.large_cross_section, m.large_cross_section_text@),
        lint_view(faces, false, m, boundary_components) == without_rule(
            lint_view(faces, true, m, boundary_components),
            "sla/large-cross-section"@,
        ),
        same_ignoring_ascii_case("SLA"@, "sla"@),
{
    reveal_strlit("SLA");
    reveal_strlit("sla");
    reveal_strlit("sla/large-cross-section");
    assert(all_findings(faces, false, m, boundary_components) =~= all_findings(faces, false, m, boundary_components)
        + Seq::<FindingView>::empty());
    let cs = cross_section_findings(m.cross_sections@, m.large_cross_section, m.large_cross_section_text@);
    let sections = m.cross_sections@;
    let rule = "sla/large-cross-section"@;
    let pr = |f: FindingView| f.rule_id == rule;
    lemma_select_indices_all(
        sections.len() as int,
        |i: int| if crate::ieee::f32_lt(sections[i].area, m.large_cross_section) {
            None
        } else {
            Some(cross_section_view(sections[i], m.large_cross_section, m.large_cross_section_text@))
        },
        pr,
    );
    assert forall|i: int| 0 <= i < cs.len() implies #[trigger] cs[i].rule_id == rule by {
        assert(pr(cs[i]));
    }
    lemma_mesh_rules(faces, m, boundary_components);
    lemma_cap_drops_trailing_rule(all_findings(faces, false, m, boundary_components), cs, rule, m.max_findings_per_rule as nat);
}

/// The findings reported for a mesh: all findings, capped per rule.
pub open spec fn lint_view(
    faces: Seq<[u32; 3]>,
    sla: bool,
    m: Measurements,
    boundary_components: Seq<Seq<usize>>,
) -> Seq<FindingView> {
    capped_findings(all_findings(faces, sla, m, boundary_components), m.max_findings_per_rule as nat)
}

fn check_self_intersections(pairs: &Vec<(u32, u32)>) -> (r: Vec<Finding>)
    ensures
        findings_view(r@) == intersection_findings(pairs@),
{
    let mut r: Vec<Finding> = Vec::new();
    let mut i: usize = 0;
    while i < pairs.len()
        invariant
            0 <= i <= pairs@.len(),
            findings_view(r@) == intersection_findings(pairs@.take(i as int)),
        decreases pairs@.len() - i,
    {
        let (a, b) = pairs[i];
        let f = self_intersection_finding(a, b);
        let ghost before = r@;
        r.push(f);
        proof {
            assert(pairs@.take(i + 1) =~= pairs@.take(i as int).push(pairs@[i as int]));
            assert(findings_view(r@) =~= findings_view(before).push(f@));
            assert(findings_view(r@) =~= intersection_findings(pairs@.take(i + 1)));
        }
        i = i + 1;
    }
    proof {
        assert(pairs@.take(pairs@.len() as int) =~= pairs@);
    }
    r
}

fn append_findings(r: &mut Vec<Finding>, more: Vec<Finding>)
    ensures
        findings_view(final(r)@) == findings_view(old(r)@) + findings_view(more@),
{
    let mut more = more;
    let ghost m0 = more@;
    r.append(&mut more);
    proof {
        assert(findings_view(r@) =~= findings_view(old(r)@) + findings_view(m0));
    }
}

/// Runs every check on a mesh: degenerate faces, duplicate faces, tiny
/// edges, sliver triangles, non-manifold edges, boundary loops, inconsistent
/// winding, inverted winding, flat shells, suspicious units, crossing faces,
/// loose shells and, for the SLA process, large cross-sections; then keeps
/// at most `max_findings_per_rule` findings of each rule.
pub fn lint_findings(mesh: &Mesh, process: &str, m: &Measurements) -> (r: Vec<Finding>)
    requires
        mesh.faces@.len() <= u32::MAX,
        m.face_areas@.len() == mesh.faces@.len(),
        are_shells(mesh.faces@, lists_view(m.shells@)),
        sections_in_order(m.cross_sections@),
        m.shell_sizes@.len() == m.shells@.len(),
        m.edge_lengths@.len() == ascending(edge_keys(mesh.faces@)).len(),
        m.aspects@.len() == mesh.faces@.len(),
        m.shell_measures@.len() == m.shells@.len(),
    ensures
        findings_view(r@) == lint_view(
            mesh.faces@,
            same_ignoring_ascii_case(process@, "sla"@),
            *m,
            boundary_loops_of(mesh.faces@),
        ),
{
    let faces = &mesh.faces;
    let mut r = check_degenerate_faces(faces, &m.face_areas);
    append_findings(&mut r, check_duplicate_faces(faces));
    append_findings(&mut r, check_tiny_edges(faces, &m.edge_lengths, m.tiny_edge, m.tiny_edge_text.as_str()));
    append_findings(&mut r, check_bad_aspect_triangles(&m.aspects, m.bad_aspect_ratio, m.bad_aspect_text.as_str()));
    append_findings(&mut r, check_non_manifold(faces));
    let loops = check_boundary_loops(faces);
    let ghost comps = boundary_loops_of(faces@);
    append_findings(&mut r, loops);
    append_findings(&mut r, check_normal_consistency(faces));
    let inverted = check_inverted_normals(m.signed_volume);
    proof {
        if f32_le(F32_ZERO_BITS, m.signed_volume) {
            assert(findings_view(inverted@) =~= Seq::<FindingView>::empty());
        }
    }
    append_findings(&mut r, inverted);
    proof {
        assert forall|c: int, k: int| 0 <= c < m.shells@.len() && 0 <= k < m.shells@[c]@.len() implies #[trigger] m.shells@[c]@[k] <= u32::MAX by {
            assert(lists_view(m.shells@)[c] == m.shells@[c]@);
            assert(lists_view(m.shells@)[c][k] < faces@.len());
        }
    }
    append_findings(&mut r, check_zero_volume_shells(&m.shells, &m.shell_measures));
    append_findings(&mut r, check_units(&m.extent, m.suspicious_min_dimension, m.suspicious_max_dimension));
    append_findings(&mut r, check_self_intersections(&m.intersections));
    let mut cut: Vec<Finding> = Vec::new();
    match m.intersection_cutoff {
        Some((attempted, max_tests)) => {
            cut.push(self_intersection_skipped_finding(faces.len() as u64, attempted, max_tests));
        },
        None => {},
    }
    proof {
        assert(findings_view(cut@) =~= cutoff_findings(faces@.len(), m.intersection_cutoff));
    }
    append_findings(&mut r, cut);
    append_findings(&mut r, check_shells(&m.shells, &m.shell_sizes, m.tiny_shell_volume, m.tiny_shell_text.as_str()));
    let sla = is_sla(process);
    if sla {
        append_findings(&mut r, check_large_cross_sections(&m.cross_sections, m.large_cross_section, m.large_cross_section_text.as_str()));
    } else {
        proof {
            assert(findings_view(r@) =~= findings_view(r@) + Seq::<FindingView>::empty());
        }
    }
    proof {
        assert(findings_view(r@) =~= all_findings(faces@, sla, *m, comps));
    }
    let capped = cap_findings_per_rule(r, m.max_findings_per_rule);
    proof {
        assert(findings_view(capped@) == lint_view(faces@, sla, *m, comps));
    }
    capped
}


/// The count of a severity is the number of findings of that severity.
pub proof fn law_severity_count_counts(findings: Seq<FindingView>, severity: Severity)
    ensures
        severity_count(findings, severity) == findings.filter(|f: FindingView| f.severity == severity).len(),
    decreases findings.len(),
{
    reveal(Seq::filter);
    if findings.len() > 0 {
        law_severity_count_counts(findings.drop_last(), severity);
    }
}


/// Each pair of crossing faces is reported once, in the order given, naming
/// both faces.
pub proof fn law_crossing_pairs_reported(pairs: Seq<(u32, u32)>)
    ensures
        intersection_findings(pairs).len() == pairs.len(),
        forall|i: int|
            0 <= i < pairs.len() ==> (#[trigger] intersection_findings(pairs)[i]).face_ids == seq![pairs[i].0, pairs[i].1]
                && intersection_findings(pairs)[i].rule_id == "mesh/self-intersection"@ && intersection_findings(pairs)[i].message
                == "faces "@ + decimal(pairs[i].0 as nat) + " and "@ + decimal(pairs[i].1 as nat) + " intersect"@,
{
}

} // verus!
