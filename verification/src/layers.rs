use vstd::prelude::*;
use crate::checks::select_indices;
use crate::ieee::{f32_le, f32_less_eq, f32_lt, f32_less, F32_ZERO_BITS};
use crate::model::{findings_view, metric, Finding, FindingView, Metric, MetricValue, Severity, metrics_view};
use crate::sort::{sort_distinct, strictly_increasing};
use crate::text::{decimal, decimal_string};
use std::collections::HashMap;

verus! {

broadcast use vstd::std_specs::hash::group_hash_axioms;

/// The faces of one layer, in increasing order.
#[derive(Clone, Debug)]
pub struct LayerFaces {
    pub layer: i64,
    pub face_ids: Vec<u32>,
}

/// The faces whose layer is `l`, in increasing order.
pub open spec fn faces_in_layer(layers: Seq<Option<i64>>, l: i64) -> Seq<u32> {
    select_indices(layers.len() as int, |i: int| if layers[i] == Some(l) { Some(i as u32) } else { None })
}

/// Some face lies in layer `l`.
pub open spec fn layer_used(layers: Seq<Option<i64>>, l: i64) -> bool {
    exists|i: int| 0 <= i < layers.len() && layers[i] == Some(l)
}

/// The groups list each used layer once, in increasing layer order, with its faces.
pub open spec fn groups_layers(layers: Seq<Option<i64>>, groups: Seq<LayerFaces>) -> bool {
    &&& forall|a: int, b: int| 0 <= a < b < groups.len() ==> groups[a].layer < groups[b].layer
    &&& forall|l: i64| layer_used(layers, l) <==> exists|k: int| 0 <= k < groups.len() && #[trigger] groups[k].layer == l
    &&& forall|k: int| 0 <= k < groups.len() ==> (#[trigger] groups[k]).face_ids@ == faces_in_layer(layers, groups[k].layer)
}

/// The faces of a layer come in increasing order, each once.
pub proof fn lemma_faces_in_layer_increasing(layers: Seq<Option<i64>>, l: i64, n: int)
    requires
        0 <= n <= layers.len(),
        layers.len() <= u32::MAX,
    ensures
        ({
            let r = select_indices(n, |i: int| if layers[i] == Some(l) { Some(i as u32) } else { None });
            &&& forall|a: int| 0 <= a < r.len() ==> (#[trigger] r[a]) < n
            &&& forall|a: int, b: int| 0 <= a < b < r.len() ==> #[trigger] r[a] < #[trigger] r[b]
        }),
    decreases n,
{
    if n > 0 {
        lemma_faces_in_layer_increasing(layers, l, n - 1);
        let f = |i: int| if layers[i] == Some(l) { Some(i as u32) } else { None };
        let r0 = select_indices(n - 1, f);
        let r = select_indices(n, f);
        if layers[n - 1] == Some(l) {
            assert(r == r0.push((n - 1) as u32));
            assert(((n - 1) as u32) as int == n - 1);
            assert forall|a: int| 0 <= a < r.len() implies (#[trigger] r[a]) < n by {
                if a < r0.len() {
                    assert(r[a] == r0[a]);
                }
            }
            assert forall|a: int, b: int| 0 <= a < b < r.len() implies #[trigger] r[a] < #[trigger] r[b] by {
                assert(r[a] == r0[a]);
                if b < r0.len() {
                    assert(r[b] == r0[b]);
                }
            }
        } else {
            assert(r == r0);
        }
    }
}

spec fn has_key(o: Option<i64>, k: u64) -> bool {
    match o {
        Some(l) => order_key(l) == k,
        None => false,
    }
}

spec fn order_key(l: i64) -> u64 {
    (l as int + 0x8000_0000_0000_0000) as u64
}

fn key_of_layer(l: i64) -> (k: u64)
    ensures
        k == order_key(l),
{
    (l as i128 + 0x8000_0000_0000_0000) as u64
}

fn layer_of_key(k: u64) -> (l: i64)
    ensures
        k == order_key(l),
{
    (k as i128 - 0x8000_0000_0000_0000) as i64
}

/// Groups faces by layer; `layers[i]` is the layer of face `i`, or `None`
/// for a face that adds no area.
pub fn layer_groups(layers: &Vec<Option<i64>>) -> (groups: Vec<LayerFaces>)
    requires
        layers@.len() <= u32::MAX,
    ensures
        groups_layers(layers@, groups@),
        forall|k: int, a: int, b: int|
            0 <= k < groups@.len() && 0 <= a < b < groups@[k].face_ids@.len() ==> (#[trigger] groups@[k].face_ids@[a])
                < #[trigger] groups@[k].face_ids@[b],
{
    let ghost ls = layers@;
    proof {
        assert forall|a: i64, b: i64| #[trigger] order_key(a) == #[trigger] order_key(b) implies a == b by {}
    }
    let mut map: HashMap<u64, Vec<u32>> = HashMap::new();
    let mut keys: Vec<u64> = Vec::new();
    let mut i: usize = 0;
    while i < layers.len()
        invariant
            ls == layers@,
            ls.len() <= u32::MAX,
            0 <= i <= ls.len(),
            keys@.no_duplicates(),
            forall|k: u64| #[trigger] map@.contains_key(k) <==> keys@.contains(k),
            forall|k: u64| #[trigger] keys@.contains(k) <==> exists|j: int| 0 <= j < i && #[trigger] has_key(ls[j], k),
            forall|l: i64| #[trigger] map@.contains_key(order_key(l)) ==> map@[order_key(l)]@ == select_indices(
                i as int,
                |j: int| if ls[j] == Some(l) { Some(j as u32) } else { None },
            ),
            forall|a: i64, b: i64| #[trigger] order_key(a) == #[trigger] order_key(b) ==> a == b,
        decreases ls.len() - i,
    {
        let ghost m0 = map@;
        let ghost k0 = keys@;
        match layers[i] {
            None => {
                proof {
                    assert forall|k: u64| #[trigger] keys@.contains(k) <==> exists|j: int| 0 <= j < i + 1 && #[trigger] has_key(ls[j], k) by {
                        if exists|j: int| 0 <= j < i + 1 && #[trigger] has_key(ls[j], k) {
                            let j = choose|j: int| 0 <= j < i + 1 && #[trigger] has_key(ls[j], k);
                            assert(j != i);
                        }
                    }
                }
            },
            Some(l) => {
                let k = key_of_layer(l);
                match map.remove(&k) {
                    Some(mut g) => {
                        g.push(i as u32);
                        map.insert(k, g);
                    },
                    None => {
                        let mut g: Vec<u32> = Vec::new();
                        g.push(i as u32);
                        map.insert(k, g);
                        keys.push(k);
                        proof {
                            assert(!k0.contains(k));
                            assert(keys@.no_duplicates()) by {
                                assert forall|a: int, b: int| 0 <= a < b < keys@.len() implies keys@[a] != keys@[b] by {
                                    if b == keys@.len() - 1 {
                                        assert(k0.contains(k0[a]));
                                    }
                                }
                            }
                            let f = |j: int| if ls[j] == Some(l) { Some(j as u32) } else { None };
                            assert forall|j: int| 0 <= j < i implies #[trigger] f(j) is None by {
                                if ls[j] == Some(l) {
                                    assert(has_key(ls[j], k));
                                    assert(k0.contains(k));
                                }
                            }
                            crate::repair::lemma_select_none(i as int, f);
                            assert(g@ =~= select_indices(i + 1, f));
                        }
                    },
                }
                proof {
                    assert forall|k2: u64| #[trigger] map@.contains_key(k2) <==> keys@.contains(k2) by {
                        if keys@.contains(k2) && k2 != k {
                            let z = choose|z: int| 0 <= z < keys@.len() && keys@[z] == k2;
                            assert(k0[z] == k2);
                        }
                        if k2 == k {
                            if k0.contains(k) {
                                let z = choose|z: int| 0 <= z < k0.len() && k0[z] == k;
                                assert(keys@[z] == k);
                            } else {
                                assert(keys@[keys@.len() - 1] == k);
                            }
                        }
                        if k0.contains(k2) {
                            let z = choose|z: int| 0 <= z < k0.len() && k0[z] == k2;
                            assert(keys@[z] == k2);
                        }
                    }
                    assert forall|k2: u64| #[trigger] keys@.contains(k2) <==> exists|j: int| 0 <= j < i + 1 && #[trigger] has_key(ls[j], k2) by {
                        if keys@.contains(k2) && !k0.contains(k2) {
                            assert(k2 == k);
                            assert(ls[i as int] == Some(l));
                            assert(has_key(ls[i as int], k2));
                        }
                        if k0.contains(k2) {
                            let z = choose|z: int| 0 <= z < k0.len() && k0[z] == k2;
                            assert(keys@[z] == k2);
                            let j = choose|j: int| 0 <= j < i && #[trigger] has_key(ls[j], k2);
                            assert(has_key(ls[j], k2));
                        }
                        if exists|j: int| 0 <= j < i + 1 && #[trigger] has_key(ls[j], k2) {
                            let j = choose|j: int| 0 <= j < i + 1 && #[trigger] has_key(ls[j], k2);
                            if j == i {
                                assert(k2 == k);
                                assert(keys@.contains(k)) by {
                                    if k0.contains(k) {
                                        let z = choose|z: int| 0 <= z < k0.len() && k0[z] == k;
                                        assert(keys@[z] == k);
                                    } else {
                                        assert(keys@[keys@.len() - 1] == k);
                                    }
                                }
                            } else {
                                assert(k0.contains(k2));
                                let z = choose|z: int| 0 <= z < k0.len() && k0[z] == k2;
                                assert(keys@[z] == k2);
                            }
                        }
                    }
                }
            },
        }
        proof {
            assert forall|l2: i64| #[trigger] map@.contains_key(order_key(l2)) implies map@[order_key(l2)]@ == select_indices(
                i + 1,
                |j: int| if ls[j] == Some(l2) { Some(j as u32) } else { None },
            ) by {
                let f = |j: int| if ls[j] == Some(l2) { Some(j as u32) } else { None };
                assert(select_indices(i + 1, f) == match f(i as int) {
                    Some(b) => select_indices(i as int, f).push(b),
                    None => select_indices(i as int, f),
                });
            }
        }
        i = i + 1;
    }
    let ghost keys_all = keys@;
    let sorted = sort_distinct(keys);
    proof {
        assert forall|q: int| 0 <= q < sorted@.len() implies #[trigger] map@.contains_key(sorted@[q]) by {
            assert(sorted@.to_set().contains(sorted@[q]));
            assert(keys_all.to_set().contains(sorted@[q]));
        }
    }
    let mut groups: Vec<LayerFaces> = Vec::new();
    let mut t: usize = 0;
    while t < sorted.len()
        invariant
            ls == layers@,
            strictly_increasing(sorted@),
            sorted@.to_set() == keys_all.to_set(),
            0 <= t <= sorted@.len(),
            groups@.len() == t,
            forall|k: u64| #[trigger] keys_all.contains(k) <==> exists|j: int| 0 <= j < ls.len() && #[trigger] has_key(ls[j], k),
            forall|q: int| t <= q < sorted@.len() ==> #[trigger] map@.contains_key(sorted@[q]),
            forall|l: i64| #[trigger] map@.contains_key(order_key(l)) ==> map@[order_key(l)]@ == faces_in_layer(ls, l),
            forall|q: int| 0 <= q < t ==> order_key((#[trigger] groups@[q]).layer) == sorted@[q] && groups@[q].face_ids@
                == faces_in_layer(ls, groups@[q].layer),
        decreases sorted@.len() - t,
    {
        let k = sorted[t];
        let l = layer_of_key(k);
        let ghost m0 = map@;
        proof {
            assert(map@.contains_key(sorted@[t as int]));
        }
        let g = match map.remove(&k) {
            Some(g) => g,
            None => Vec::new(),
        };
        groups.push(LayerFaces { layer: l, face_ids: g });
        proof {
            assert(m0.contains_key(order_key(l)));
            assert forall|q: int| t + 1 <= q < sorted@.len() implies #[trigger] map@.contains_key(sorted@[q]) by {
                assert(sorted@[q] != k);
                assert(m0.contains_key(sorted@[q]));
            }
            assert forall|q: int| 0 <= q < t + 1 implies order_key((#[trigger] groups@[q]).layer) == sorted@[q] && groups@[q].face_ids@
                == faces_in_layer(ls, groups@[q].layer) by {
                if q == t {
                    assert(groups@[q].layer == l);
                }
            }
        }
        t = t + 1;
    }
    proof {
        let gs = groups@;
        assert forall|k: int, a: int, b: int|
            0 <= k < gs.len() && 0 <= a < b < gs[k].face_ids@.len() implies (#[trigger] gs[k].face_ids@[a])
                < #[trigger] gs[k].face_ids@[b] by {
            lemma_faces_in_layer_increasing(ls, gs[k].layer, ls.len() as int);
        }
        assert forall|a: int, b: int| 0 <= a < b < gs.len() implies gs[a].layer < gs[b].layer by {
            assert(sorted@[a] < sorted@[b]);
        }
        assert forall|l: i64| layer_used(ls, l) <==> exists|k: int| 0 <= k < gs.len() && #[trigger] gs[k].layer == l by {
            if layer_used(ls, l) {
                let j = choose|j: int| 0 <= j < ls.len() && ls[j] == Some(l);
                assert(has_key(ls[j], order_key(l)));
                assert(keys_all.contains(order_key(l)));
                assert(sorted@.to_set().contains(order_key(l)));
                let q = choose|q: int| 0 <= q < sorted@.len() && sorted@[q] == order_key(l);
                assert(order_key(gs[q].layer) == order_key(l));
                assert(gs[q].layer == l);
            }
            if exists|k: int| 0 <= k < gs.len() && #[trigger] gs[k].layer == l {
                let q = choose|q: int| 0 <= q < gs.len() && #[trigger] gs[q].layer == l;
                assert(sorted@.to_set().contains(sorted@[q]));
                assert(keys_all.contains(order_key(l)));
                let j = choose|j: int| 0 <= j < ls.len() && #[trigger] has_key(ls[j], order_key(l));
                assert(ls[j] == Some(l));
            }
        }
    }
    groups
}

// ---------------------------------------------------------------------------
// Large cross-sections

/// The cross-section check runs only when both the layer height and the area
/// threshold (binary32 bit patterns) are above zero (a NaN does not stop it).
pub open spec fn cross_sections_enabled(layer_height: u32, threshold: u32) -> bool {
    !f32_le(layer_height, F32_ZERO_BITS) && !f32_le(threshold, F32_ZERO_BITS)
}

pub fn large_cross_sections_enabled(layer_height: u32, threshold: u32) -> (r: bool)
    ensures
        r == cross_sections_enabled(layer_height, threshold),
{
    !f32_less_eq(layer_height, F32_ZERO_BITS) && !f32_less_eq(threshold, F32_ZERO_BITS)
}

/// One layer's projected area: the layer, its height (a binary64 bit
/// pattern), its area (a binary32 bit pattern, also written as `area_text`)
/// and its faces.
#[derive(Clone, Debug)]
pub struct LayerSection {
    pub layer: i64,
    pub z: u64,
    pub area: u32,
    pub area_text: String,
    pub face_ids: Vec<u32>,
}

/// The finding for a layer whose area reaches the threshold.
pub open spec fn cross_section_view(s: LayerSection, threshold: u32, threshold_text: Seq<char>) -> FindingView {
    FindingView {
        rule_id: "sla/large-cross-section"@,
        severity: Severity::Warn,
        message: "large cross-section near layer "@ + signed_decimal(s.layer as int) + " is "@ + s.area_text@
            + " mm2; threshold is "@ + threshold_text + " mm2"@,
        face_ids: s.face_ids@,
        metrics: seq![
            ("layer"@, MetricValue::Integer(s.layer)),
            ("z_mm"@, MetricValue::Double(s.z)),
            ("area_mm2"@, MetricValue::Single(s.area)),
            ("threshold_mm2"@, MetricValue::Single(threshold)),
        ],
        recommendation: Some("Reorient the model or reduce large flat peel areas for SLA printing."@),
    }
}

/// The decimal spelling of a signed number.
pub open spec fn signed_decimal(n: int) -> Seq<char> {
    if n < 0 {
        "-"@ + decimal((-n) as nat)
    } else {
        decimal(n as nat)
    }
}

fn signed_decimal_string(n: i64) -> (s: String)
    ensures
        s@ == signed_decimal(n as int),
{
    if n < 0 {
        let m: u64 = if n == i64::MIN { 0x8000_0000_0000_0000 } else { (-n) as u64 };
        let mut s = String::from_str("-");
        s.append(decimal_string(m).as_str());
        s
    } else {
        decimal_string(n as u64)
    }
}

/// The sections come in increasing layer order, each layer once, and list
/// their faces in increasing order, each once (as `layer_groups` gives them).
pub open spec fn sections_in_order(sections: Seq<LayerSection>) -> bool {
    &&& forall|a: int, b: int| 0 <= a < b < sections.len() ==> sections[a].layer < sections[b].layer
    &&& forall|s: int, a: int, b: int|
        0 <= s < sections.len() && 0 <= a < b < sections[s].face_ids@.len() ==> (#[trigger] sections[s].face_ids@[a])
            < #[trigger] sections[s].face_ids@[b]
}

/// One finding per layer whose area is not below the threshold (a NaN area
/// is reported), in the order given.
pub open spec fn cross_section_findings(sections: Seq<LayerSection>, threshold: u32, threshold_text: Seq<char>) -> Seq<FindingView> {
    select_indices(
        sections.len() as int,
        |i: int| if f32_lt(sections[i].area, threshold) { None } else { Some(cross_section_view(sections[i], threshold, threshold_text)) },
    )
}

/// Reports each layer whose projected area reaches `threshold` (a binary32
/// bit pattern, written `threshold_text` in messages).
pub fn check_large_cross_sections(sections: &Vec<LayerSection>, threshold: u32, threshold_text: &str) -> (r: Vec<Finding>)
    requires
        sections_in_order(sections@),
    ensures
        findings_view(r@) == cross_section_findings(sections@, threshold, threshold_text@),
{
    let ghost sel = |i: int| if f32_lt(sections@[i].area, threshold) { None } else { Some(cross_section_view(sections@[i], threshold, threshold_text@)) };
    let mut r: Vec<Finding> = Vec::new();
    let mut i: usize = 0;
    while i < sections.len()
        invariant
            sel == (|i: int| if f32_lt(sections@[i].area, threshold) { None } else { Some(cross_section_view(sections@[i], threshold, threshold_text@)) }),
            0 <= i <= sections@.len(),
            findings_view(r@) == select_indices(i as int, sel),
        decreases sections@.len() - i,
    {
        let s = &sections[i];
        if !f32_less(s.area, threshold) {
            let mut message = String::from_str("large cross-section near layer ");
            message.append(signed_decimal_string(s.layer).as_str());
            message.append(" is ");
            message.append(s.area_text.as_str());
            message.append(" mm2; threshold is ");
            message.append(threshold_text);
            message.append(" mm2");
            let mut metrics: Vec<Metric> = Vec::new();
            metrics.push(metric("layer", MetricValue::Integer(s.layer)));
            metrics.push(metric("z_mm", MetricValue::Double(s.z)));
            metrics.push(metric("area_mm2", MetricValue::Single(s.area)));
            metrics.push(metric("threshold_mm2", MetricValue::Single(threshold)));
            let f = Finding {
                rule_id: String::from_str("sla/large-cross-section"),
                severity: Severity::Warn,
                message,
                face_ids: s.face_ids.clone(),
                metrics,
                recommendation: Some(String::from_str("Reorient the model or reduce large flat peel areas for SLA printing.")),
            };
            let ghost before = r@;
            r.push(f);
            proof {
                assert(metrics_view(f.metrics@) =~= cross_section_view(sections@[i as int], threshold, threshold_text@).metrics);
                assert(sel(i as int) == Some(f@));
                assert(findings_view(r@) =~= findings_view(before).push(f@));
            }
        } else {
            proof {
                assert(sel(i as int) is None);
            }
        }
        i = i + 1;
    }
    r
}


/// Every layer whose area is not below the threshold (a NaN area included)
/// is reported with the faces and number of that layer, its area as written
/// and the threshold; no other layer is, and the findings keep the order of
/// the layers.
/// The finding reports layer section `s`: its faces, its layer number, its
/// area as written and the threshold.
pub open spec fn reports_layer(f: FindingView, s: LayerSection, threshold_text: Seq<char>) -> bool {
    &&& f.rule_id == "sla/large-cross-section"@
    &&& f.face_ids == s.face_ids@
    &&& f.metrics[0] == ("layer"@, MetricValue::Integer(s.layer))
    &&& f.message == "large cross-section near layer "@ + signed_decimal(s.layer as int) + " is "@ + s.area_text@
        + " mm2; threshold is "@ + threshold_text + " mm2"@
}

/// The finding reports one of the layer sections whose area is not below the
/// threshold.
pub open spec fn reports_a_large_layer(f: FindingView, sections: Seq<LayerSection>, threshold: u32, threshold_text: Seq<char>) -> bool {
    exists|q: int| 0 <= q < sections.len() && !f32_lt(sections[q].area, threshold) && #[trigger] reports_layer(f, sections[q], threshold_text)
}

/// Every layer whose area is not below the threshold (a NaN area included)
/// is reported; no other layer is.
pub proof fn law_cross_sections_report_large_layers(sections: Seq<LayerSection>, threshold: u32, threshold_text: Seq<char>)
    ensures
        forall|s: int|
            #![trigger sections[s]]
            0 <= s < sections.len() && !f32_lt(sections[s].area, threshold) ==> exists|j: int|
                0 <= j < cross_section_findings(sections, threshold, threshold_text).len() && #[trigger] reports_layer(
                    cross_section_findings(sections, threshold, threshold_text)[j],
                    sections[s],
                    threshold_text,
                ),
        forall|j: int|
            0 <= j < cross_section_findings(sections, threshold, threshold_text).len() ==> #[trigger] reports_a_large_layer(
                cross_section_findings(sections, threshold, threshold_text)[j],
                sections,
                threshold,
                threshold_text,
            ),
{
    let f = |i: int| if f32_lt(sections[i].area, threshold) { None } else { Some(cross_section_view(sections[i], threshold, threshold_text)) };
    let r = cross_section_findings(sections, threshold, threshold_text);
    let idx = crate::quality::lemma_select_indices_positions(sections.len() as int, f);
    assert forall|s: int| #![trigger sections[s]] 0 <= s < sections.len() && !f32_lt(sections[s].area, threshold) implies exists|j: int|
        0 <= j < r.len() && #[trigger] reports_layer(r[j], sections[s], threshold_text) by {
        assert(f(s) is Some);
        let j = choose|j: int| 0 <= j < idx.len() && idx[j] == s;
        assert(r[j] == f(idx[j])->0);
        assert(reports_layer(r[j], sections[s], threshold_text));
    }
    assert forall|j: int|
        0 <= j < cross_section_findings(sections, threshold, threshold_text).len() implies #[trigger] reports_a_large_layer(
            cross_section_findings(sections, threshold, threshold_text)[j],
            sections,
            threshold,
            threshold_text,
        ) by {
        let s = idx[j];
        assert(f(s) is Some);
        assert(r[j] == f(s)->0);
        assert(reports_layer(cross_section_findings(sections, threshold, threshold_text)[j], sections[s], threshold_text));
    }
}

/// For layers given in ascending order, the findings come in ascending order
/// of their layer numbers.
pub proof fn law_cross_sections_keep_layer_order(sections: Seq<LayerSection>, threshold: u32, threshold_text: Seq<char>)
    requires
        sections_in_order(sections),
    ensures
        forall|j: int, k: int|
            0 <= j < k < cross_section_findings(sections, threshold, threshold_text).len() ==> (#[trigger] cross_section_findings(
                sections,
                threshold,
                threshold_text,
            )[j]).metrics[0].1->Integer_0 < (#[trigger] cross_section_findings(sections, threshold, threshold_text)[k]).metrics[0].1->Integer_0,
{
    let f = |i: int| if f32_lt(sections[i].area, threshold) { None } else { Some(cross_section_view(sections[i], threshold, threshold_text)) };
    let r = cross_section_findings(sections, threshold, threshold_text);
    let idx = crate::quality::lemma_select_indices_positions(sections.len() as int, f);
    assert forall|j: int, k: int|
        0 <= j < k < r.len() implies (#[trigger] r[j]).metrics[0].1->Integer_0 < (#[trigger] r[k]).metrics[0].1->Integer_0 by {
        assert(r[j] == f(idx[j])->0);
        assert(r[k] == f(idx[k])->0);
        assert(idx[j] < idx[k]);
        let a = idx[j];
        let b = idx[k];
        assert(sections[a].layer < sections[b].layer);
        assert(r[j].metrics[0].1->Integer_0 == sections[a].layer);
        assert(r[k].metrics[0].1->Integer_0 == sections[b].layer);
    }
}


/// In a grouping of faces by layer, a face is listed under a group exactly
/// when the face lies in that group's layer; faces without a layer are listed
/// nowhere.
pub proof fn law_faces_grouped_by_their_layer(layers: Seq<Option<i64>>, groups: Seq<LayerFaces>, k: int, i: int)
    requires
        layers.len() <= u32::MAX,
        groups_layers(layers, groups),
        0 <= k < groups.len(),
        0 <= i < layers.len(),
    ensures
        groups[k].face_ids@.contains(i as u32) <==> layers[i] == Some(groups[k].layer),
{
    let l = groups[k].layer;
    let f = |j: int| if layers[j] == Some(l) { Some(j as u32) } else { None };
    assert(groups[k].face_ids@ == faces_in_layer(layers, l));
    let idx = crate::quality::lemma_select_indices_positions(layers.len() as int, f);
    let r = faces_in_layer(layers, l);
    if layers[i] == Some(l) {
        assert(f(i) is Some);
        let x = choose|x: int| 0 <= x < idx.len() && idx[x] == i;
        assert(r[x] == i as u32);
    }
    if r.contains(i as u32) {
        let x = choose|x: int| 0 <= x < r.len() && r[x] == i as u32;
        let j = idx[x];
        assert(r[x] == j as u32);
        assert(j == i);
    }
}

} // verus!
