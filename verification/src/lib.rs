//! Mesh hygiene linting for triangle meshes: STL reading and writing,
//! topological checks, and safe repairs. Floating-point geometry (areas,
//! volumes, coordinates) is measured by the caller and handed in as
//! IEEE-754 bit patterns, so everything here is exact integer logic.

pub mod ascii;
pub mod boundary;
pub mod checks;
pub mod graph;
pub mod ieee;
pub mod layers;
pub mod lint;
pub mod model;
pub mod paths;
pub mod quality;
pub mod repair;
pub mod shells;
pub mod sort;
pub mod stl;
pub mod text;
pub mod topology;

pub use model::{Finding, Fix, FixReport, LintReport, Mesh, MeshLintError, Metric, MetricValue, Severity};
pub use lint::{count_severity, default_process, format_face_context, lint_findings, Measurements};
pub use paths::{fixed_path, infer_format};
pub use stl::{looks_like_binary_stl, parse_binary_stl, write_binary_stl};
pub use topology::{canonical_edge, face_edges, faces_share_vertex, shared_edge_same_direction};
