use vstd::prelude::*;

verus! {

/// How serious a finding is.
#[derive(Clone, Copy, Debug, PartialEq, Eq, Structural)]
pub enum Severity {
    Error,
    Warn,
    Info,
}

/// Why a mesh could not be read or written.
#[derive(Clone, Debug)]
pub enum MeshLintError {
    UnsupportedFormat(String),
    InvalidStl(String),
    MeshTooLarge,
}

/// The text shown for an error.
pub open spec fn error_text(e: MeshLintError) -> Seq<char> {
    match e {
        MeshLintError::UnsupportedFormat(f) => "unsupported mesh format: "@ + f@,
        MeshLintError::InvalidStl(m) => "invalid STL: "@ + m@,
        MeshLintError::MeshTooLarge => "mesh is too large for binary STL output"@,
    }
}

impl MeshLintError {
    /// The human-readable description of the error.
    pub fn message(&self) -> (s: String)
        ensures
            s@ == error_text(*self),
    {
        match self {
            MeshLintError::UnsupportedFormat(f) => {
                let mut s = String::from_str("unsupported mesh format: ");
                s.append(f.as_str());
                s
            },
            MeshLintError::InvalidStl(m) => {
                let mut s = String::from_str("invalid STL: ");
                s.append(m.as_str());
                s
            },
            MeshLintError::MeshTooLarge => String::from_str("mesh is too large for binary STL output"),
        }
    }
}

/// A triangle mesh. Each vertex holds the IEEE-754 binary32 bit patterns of
/// its x, y and z coordinates; each face holds three indices into `vertices`.
#[derive(Clone, Debug)]
pub struct Mesh {
    pub vertices: Vec<[u32; 3]>,
    pub faces: Vec<[u32; 3]>,
}

impl Mesh {
    /// Every face refers to existing vertices.
    pub open spec fn well_formed(&self) -> bool {
        forall|i: int, j: int|
            0 <= i < self.faces@.len() && 0 <= j < 3 ==> (#[trigger] self.faces@[i][j])
                < self.vertices@.len()
    }
}

/// The value of a metric attached to a finding or a fix.
#[derive(Clone, Copy, Debug, PartialEq, Eq, Structural)]
pub enum MetricValue {
    /// A whole number (an index or a count).
    Count(u64),
    /// A signed whole number (a layer index).
    Integer(i64),
    /// An IEEE-754 binary32 value, by its bit pattern.
    Single(u32),
    /// An IEEE-754 binary64 value, by its bit pattern.
    Double(u64),
}

/// A named metric.
#[derive(Clone, Debug)]
pub struct Metric {
    pub name: String,
    pub value: MetricValue,
}

/// One reported defect.
#[derive(Clone, Debug)]
pub struct Finding {
    pub rule_id: String,
    pub severity: Severity,
    pub message: String,
    pub face_ids: Vec<u32>,
    pub metrics: Vec<Metric>,
    pub recommendation: Option<String>,
}

/// One applied repair.
#[derive(Clone, Debug)]
pub struct Fix {
    pub rule_id: String,
    pub message: String,
    pub metrics: Vec<Metric>,
}

/// The outcome of linting a mesh.
#[derive(Clone, Debug)]
pub struct LintReport {
    pub process: String,
    pub findings: Vec<Finding>,
}

/// The outcome of repairing a mesh: findings before and after, the repairs,
/// and the repaired mesh as binary STL.
#[derive(Clone, Debug)]
pub struct FixReport {
    pub process: String,
    pub initial_findings: Vec<Finding>,
    pub fixes: Vec<Fix>,
    pub findings: Vec<Finding>,
    pub fixed_bytes: Vec<u8>,
}

/// Mathematical view of a finding.
pub struct FindingView {
    pub rule_id: Seq<char>,
    pub severity: Severity,
    pub message: Seq<char>,
    pub face_ids: Seq<u32>,
    pub metrics: Seq<(Seq<char>, MetricValue)>,
    pub recommendation: Option<Seq<char>>,
}

/// Mathematical view of a fix.
pub struct FixView {
    pub rule_id: Seq<char>,
    pub message: Seq<char>,
    pub metrics: Seq<(Seq<char>, MetricValue)>,
}

pub open spec fn metrics_view(m: Seq<Metric>) -> Seq<(Seq<char>, MetricValue)> {
    m.map_values(|x: Metric| (x.name@, x.value))
}

pub open spec fn option_text(o: Option<String>) -> Option<Seq<char>> {
    match o {
        Some(s) => Some(s@),
        None => None,
    }
}

impl View for Finding {
    type V = FindingView;

    open spec fn view(&self) -> FindingView {
        FindingView {
            rule_id: self.rule_id@,
            severity: self.severity,
            message: self.message@,
            face_ids: self.face_ids@,
            metrics: metrics_view(self.metrics@),
            recommendation: option_text(self.recommendation),
        }
    }
}

impl View for Fix {
    type V = FixView;

    open spec fn view(&self) -> FixView {
        FixView { rule_id: self.rule_id@, message: self.message@, metrics: metrics_view(self.metrics@) }
    }
}

pub open spec fn findings_view(f: Seq<Finding>) -> Seq<FindingView> {
    f.map_values(|x: Finding| x@)
}

pub open spec fn fixes_view(f: Seq<Fix>) -> Seq<FixView> {
    f.map_values(|x: Fix| x@)
}

/// A metric with the given name and value.
pub fn metric(name: &str, value: MetricValue) -> (m: Metric)
    ensures
        m.name@ == name@,
        m.value == value,
{
    Metric { name: String::from_str(name), value }
}

} // verus!
