//! Counts of the kinds of records that a STEP text names.

use vstd::prelude::*;
use vstd::string::StringSliceAdditionalSpecFns;
use vstd::string::is_ascii;
use vstd::string::is_ascii_spec_bytes;
use vstd::utf8::encode_utf8;
use crate::assembly_parser::has_step_marker;
use crate::text::count_word;
use crate::text::count_words;
use crate::text::has_word;

verus! {

/// Counts of the topology of a model.
#[derive(Clone, Copy, Debug, PartialEq, Eq, Structural)]
pub struct TopologyInfo {
    pub num_solids: usize,
    pub num_shells: usize,
    pub num_faces: usize,
    pub num_edges: usize,
    pub num_vertices: usize,
}

/// Counts of the faces of a model by the kind of their surface.
#[derive(Clone, Copy, Debug, PartialEq, Eq, Structural)]
pub struct FeatureInfo {
    pub cylindrical_faces: usize,
    pub planar_faces: usize,
    pub curved_faces: usize,
}

/// A box along the axes, in millionths.
#[derive(Clone, Copy, Debug)]
pub struct BoundingBox {
    pub min: [i64; 3],
    pub max: [i64; 3],
    pub dimensions: [i64; 3],
}

/// Result of the analysis of a STEP text.
#[derive(Debug)]
pub struct StepAnalysisResult {
    pub success: bool,
    pub error: Option<String>,
    pub filename: Option<String>,
    /// Not estimated from text alone.
    pub bounding_box: Option<BoundingBox>,
    /// Not estimated from text alone.
    pub volume_estimate: Option<i64>,
    /// Not estimated from text alone.
    pub surface_area_estimate: Option<i64>,
    pub topology: Option<TopologyInfo>,
    pub features: Option<FeatureInfo>,
}

/// Number of times that the text names `word`, counted without overlap.
pub open spec fn word_count(text: Seq<u8>, word: &str) -> nat {
    count_word(text, word.spec_bytes(), 0)
}

/// The larger of two numbers.
pub open spec fn larger(a: int, b: int) -> int {
    if a > b {
        a
    } else {
        b
    }
}

/// The counts of the topology that the text names: at least one solid, the
/// larger of the counts of the two kinds of solid, and at least one shell.
pub open spec fn topology_of(text: Seq<u8>) -> TopologyInfo {
    TopologyInfo {
        num_solids: larger(
            larger(
                word_count(text, "MANIFOLD_SOLID_BREP") as int,
                word_count(text, "BREP_WITH_VOIDS") as int,
            ),
            1,
        ) as usize,
        num_shells: larger(
            (word_count(text, "CLOSED_SHELL") + word_count(text, "OPEN_SHELL")) as int,
            1,
        ) as usize,
        num_faces: (word_count(text, "ADVANCED_FACE") + word_count(text, "FACE_SURFACE")) as usize,
        num_edges: word_count(text, "EDGE_CURVE") as usize,
        num_vertices: word_count(text, "VERTEX_POINT") as usize,
    }
}

/// The counts of the faces that the text names, by kind of surface.
pub open spec fn features_of(text: Seq<u8>) -> FeatureInfo {
    FeatureInfo {
        cylindrical_faces: word_count(text, "CYLINDRICAL_SURFACE") as usize,
        planar_faces: word_count(text, "PLANE(") as usize,
        curved_faces: (word_count(text, "B_SPLINE_SURFACE") + word_count(text, "TOROIDAL_SURFACE")
            + word_count(text, "SPHERICAL_SURFACE") + word_count(text, "CONICAL_SURFACE")) as usize,
    }
}

/// `r` holds nothing but the failure and the file name.
pub open spec fn is_invalid_format(r: StepAnalysisResult, filename: Seq<char>) -> bool {
    &&& !r.success
    &&& r.error matches Some(e) && e@ == "Invalid STEP file format"@
    &&& r.filename matches Some(f) && f@ == filename
    &&& r.bounding_box is None
    &&& r.volume_estimate is None
    &&& r.surface_area_estimate is None
    &&& r.topology is None
    &&& r.features is None
}

/// `r` holds the counts of the text.
pub open spec fn is_analysis_of(r: StepAnalysisResult, text: Seq<u8>, filename: Seq<char>) -> bool {
    &&& r.success
    &&& r.error is None
    &&& r.filename matches Some(f) && f@ == filename
    &&& r.bounding_box is None
    &&& r.volume_estimate is None
    &&& r.surface_area_estimate is None
    &&& r.topology == Some(topology_of(text))
    &&& r.features == Some(features_of(text))
}

/// Number of times that the text names a word of six letters or more.
fn count_kind(text: &[u8], word: &str) -> (n: usize)
    requires
        is_ascii(word),
        word@.len() >= 6,
    ensures
        n == word_count(text@, word),
        6 * n <= text@.len() <= usize::MAX,
{
    proof {
        is_ascii_spec_bytes(word);
    }
    let n = count_words(text, word.as_bytes());
    assert(6 * n <= n * word.spec_bytes().len()) by (nonlinear_arith)
        requires
            word.spec_bytes().len() >= 6,
            n >= 0,
    ;
    n
}

/// Counts of the records of a STEP text by kind, from the words of the text
/// alone. A text that names neither `ISO-10303-21` nor `STEP` is refused.
pub fn analyze_step_content(content: String, filename: String) -> (r: StepAnalysisResult)
    ensures
        !has_step_marker(encode_utf8(content@)) ==> is_invalid_format(r, filename@),
        has_step_marker(encode_utf8(content@)) ==> is_analysis_of(
            r,
            encode_utf8(content@),
            filename@,
        ),
{
    let text: &[u8] = content.as_str().as_bytes();
    if !has_word(text, "ISO-10303-21".as_bytes()) && !has_word(text, "STEP".as_bytes()) {
        return StepAnalysisResult {
            success: false,
            error: Some("Invalid STEP file format".to_owned()),
            filename: Some(filename),
            bounding_box: None,
            volume_estimate: None,
            surface_area_estimate: None,
            topology: None,
            features: None,
        };
    }
    proof {
        reveal_strlit("ADVANCED_FACE");
        reveal_strlit("FACE_SURFACE");
        reveal_strlit("EDGE_CURVE");
        reveal_strlit("VERTEX_POINT");
        reveal_strlit("CYLINDRICAL_SURFACE");
        reveal_strlit("PLANE(");
        reveal_strlit("B_SPLINE_SURFACE");
        reveal_strlit("TOROIDAL_SURFACE");
        reveal_strlit("SPHERICAL_SURFACE");
        reveal_strlit("CONICAL_SURFACE");
        reveal_strlit("MANIFOLD_SOLID_BREP");
        reveal_strlit("BREP_WITH_VOIDS");
        reveal_strlit("CLOSED_SHELL");
        reveal_strlit("OPEN_SHELL");
    }
    let faces = count_kind(text, "ADVANCED_FACE");
    let face_surfaces = count_kind(text, "FACE_SURFACE");
    let num_faces = faces + face_surfaces;
    let num_edges = count_kind(text, "EDGE_CURVE");
    let num_vertices = count_kind(text, "VERTEX_POINT");
    let cylindrical_faces = count_kind(text, "CYLINDRICAL_SURFACE");
    let planar_faces = count_kind(text, "PLANE(");
    let splines = count_kind(text, "B_SPLINE_SURFACE");
    let tori = count_kind(text, "TOROIDAL_SURFACE");
    let spheres = count_kind(text, "SPHERICAL_SURFACE");
    let cones = count_kind(text, "CONICAL_SURFACE");
    let curved_faces = splines + tori + spheres + cones;
    let solids = count_kind(text, "MANIFOLD_SOLID_BREP");
    let voids = count_kind(text, "BREP_WITH_VOIDS");
    let mut num_solids = if solids > voids {
        solids
    } else {
        voids
    };
    if num_solids < 1 {
        num_solids = 1;
    }
    let closed = count_kind(text, "CLOSED_SHELL");
    let open = count_kind(text, "OPEN_SHELL");
    let mut num_shells = closed + open;
    if num_shells < 1 {
        num_shells = 1;
    }
    StepAnalysisResult {
        success: true,
        error: None,
        filename: Some(filename),
        bounding_box: None,
        volume_estimate: None,
        surface_area_estimate: None,
        topology: Some(TopologyInfo { num_solids, num_shells, num_faces, num_edges, num_vertices }),
        features: Some(FeatureInfo { cylindrical_faces, planar_faces, curved_faces }),
    }
}

/// The kind of face that a marker of the viewer stands for.
#[derive(Clone, Copy, Debug, PartialEq, Eq, Structural)]
pub enum MarkerType {
    Cylindrical,
    Curved,
    Planar,
}

impl MarkerType {
    /// The name of the kind in lower case.
    pub fn name(&self) -> (s: String)
        ensures
            s@ == (match *self {
                MarkerType::Cylindrical => "cylindrical"@,
                MarkerType::Curved => "curved"@,
                MarkerType::Planar => "planar"@,
            }),
    {
        match self {
            MarkerType::Cylindrical => "cylindrical".to_owned(),
            MarkerType::Curved => "curved".to_owned(),
            MarkerType::Planar => "planar".to_owned(),
        }
    }
}

/// The kind of the marker at a place: the first markers stand for the
/// cylindrical faces, the next for the curved ones, the rest for planes.
pub open spec fn marker_type(place: int, features: FeatureInfo) -> MarkerType {
    if place < features.cylindrical_faces {
        MarkerType::Cylindrical
    } else if place < features.cylindrical_faces + features.curved_faces {
        MarkerType::Curved
    } else {
        MarkerType::Planar
    }
}

/// The kind of the marker at a place.
pub fn face_type_by_place(place: usize, features: &FeatureInfo) -> (t: MarkerType)
    ensures
        t == marker_type(place as int, *features),
{
    if place < features.cylindrical_faces {
        MarkerType::Cylindrical
    } else if place - features.cylindrical_faces < features.curved_faces {
        MarkerType::Curved
    } else {
        MarkerType::Planar
    }
}

} // verus!
