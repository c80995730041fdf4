//! Mating interfaces between the parts of an assembly: pairs of faces of
//! different parts that lie close together, with the kind of their contact.

use vstd::prelude::*;
use vstd::string::StringSliceAdditionalSpecFns;
use crate::assembly_parser::FaceType;
use crate::assembly_parser::ParsedFace;
use crate::assembly_parser::ParsedPart;
use crate::assembly_parser::numbered;
use crate::assembly_parser::numbered_count;
use crate::fixed::LENGTH_MAX;
use crate::fixed::SCALE;
use crate::fixed::abs;
use crate::fixed::div_floor;
use crate::fixed::round_div;
use crate::fixed::lemma_round_div_bounds;
use crate::geometry::WORLD_MAX;
use crate::geometry::check_placement;
use crate::geometry::distance_spec;
use crate::geometry::dot;
use crate::geometry::dot_spec;
use crate::geometry::midpoint;
use crate::geometry::midpoint_spec;
use crate::geometry::placement_in_range;
use crate::geometry::transform_direction;
use crate::geometry::transform_direction_spec;
use crate::geometry::transform_point;
use crate::geometry::transform_point_spec;
use crate::geometry::vec_distance;
use crate::geometry::within;
use crate::text::copy_range;
use crate::text::same_bytes;

verus! {

/// Cosine below which two planes face each other: minus 0.9.
pub const OPPOSING_COSINE: i64 = -900_000;

/// Difference of radii below which a pin fits a hole: 0.5.
pub const RADIUS_CLEARANCE: i64 = 500_000;

/// Contact area of two planes: 10.
pub const PLANE_CONTACT_AREA: i64 = 10_000_000;

/// Contact area of a round contact whose faces have no radius: 5.
pub const ROUND_CONTACT_AREA: i64 = 5_000_000;

/// Contact area of a contact of unknown kind: 1.
pub const UNKNOWN_CONTACT_AREA: i64 = 1_000_000;

/// The circle number in millionths of a millionth.
pub const PI_FINE: i64 = 3_141_592_653_590;

/// Millionths of a millionth in a million.
pub const AREA_DIVISOR: i128 = 1_000_000_000_000_000_000;

/// The kind of contact of two faces.
#[derive(Clone, Copy, Debug, PartialEq, Eq, Structural)]
pub enum InterfaceType {
    FaceToFace,
    PinInHole,
    ShaftInBore,
    Unknown,
}

impl InterfaceType {
    /// The name of the kind in lower case.
    pub fn name(&self) -> (s: String)
        ensures
            s@ == (match *self {
                InterfaceType::FaceToFace => "face_to_face"@,
                InterfaceType::PinInHole => "pin_in_hole"@,
                InterfaceType::ShaftInBore => "shaft_in_bore"@,
                InterfaceType::Unknown => "unknown"@,
            }),
    {
        match self {
            InterfaceType::FaceToFace => "face_to_face".to_owned(),
            InterfaceType::PinInHole => "pin_in_hole".to_owned(),
            InterfaceType::ShaftInBore => "shaft_in_bore".to_owned(),
            InterfaceType::Unknown => "unknown".to_owned(),
        }
    }
}

/// What decides whether two faces are in contact.
#[derive(Clone, Copy, Debug)]
pub struct DetectionParams {
    /// Greatest distance of the centres of two faces in contact.
    pub proximity_threshold: i64,
    /// Least absolute cosine between the normals of two faces in contact.
    pub normal_threshold: i64,
    /// Least area of a contact.
    pub min_contact_area: i64,
}

impl Default for DetectionParams {
    /// Distance 2, cosine 0.95, area 1.
    fn default() -> (r: DetectionParams)
        ensures
            r.proximity_threshold == 2 * SCALE,
            r.normal_threshold == 950_000,
            r.min_contact_area == SCALE,
    {
        DetectionParams {
            proximity_threshold: 2_000_000,
            normal_threshold: 950_000,
            min_contact_area: 1_000_000,
        }
    }
}

/// A face in the frame of the assembly.
#[derive(Clone, Copy, Debug)]
pub struct TransformedFace {
    pub center: [i64; 3],
    pub normal: [i64; 3],
    pub face_type: FaceType,
    pub radius: Option<i64>,
}

impl TransformedFace {
    /// The magnitudes are within what the arithmetic can hold.
    pub open spec fn in_range(&self) -> bool {
        &&& within(self.center, WORLD_MAX as int)
        &&& within(self.normal, SCALE as int)
        &&& self.radius matches Some(r) ==> -LENGTH_MAX <= r <= LENGTH_MAX
    }
}

/// A face in the frame that the placement of its part places it in: the
/// centre moved as a point, the normal turned and given length one.
pub open spec fn world_face(face: ParsedFace, m: [i64; 16]) -> TransformedFace {
    TransformedFace {
        center: transform_point_spec(face.center, m),
        normal: transform_direction_spec(face.normal, m),
        face_type: face.face_type,
        radius: face.radius,
    }
}

/// A face in the frame that the placement of its part places it in.
pub fn transform_face(face: &ParsedFace, transform: &[i64; 16]) -> (r: TransformedFace)
    requires
        face.in_range(),
        placement_in_range(*transform),
    ensures
        r == world_face(*face, *transform),
        r.in_range(),
{
    TransformedFace {
        center: transform_point(&face.center, transform),
        normal: transform_direction(&face.normal, transform),
        face_type: face.face_type,
        radius: face.radius,
    }
}

/// Scalar product of two normals: the cosine of their angle, from minus one
/// where they oppose each other to one.
pub fn normal_alignment(a: &[i64; 3], b: &[i64; 3]) -> (r: i64)
    requires
        within(*a, LENGTH_MAX as int),
        within(*b, LENGTH_MAX as int),
    ensures
        r == dot_spec(*a, *b),
{
    dot(a, b)
}

/// The kind of contact of two faces. Two planes whose normals oppose each
/// other, with a cosine below `OPPOSING_COSINE`, stand face to face. Two
/// cylinders whose radii differ by less than `RADIUS_CLEARANCE` are pin and
/// hole. A cylinder and a plane, in either order, are shaft and bore. Every
/// other pair is of unknown kind.
pub open spec fn classify_spec(
    type_a: FaceType,
    type_b: FaceType,
    alignment: int,
    radius_a: Option<i64>,
    radius_b: Option<i64>,
) -> InterfaceType {
    if type_a == FaceType::Planar && type_b == FaceType::Planar && alignment < OPPOSING_COSINE {
        InterfaceType::FaceToFace
    } else if type_a == FaceType::Cylindrical && type_b == FaceType::Cylindrical && (match (
        radius_a,
        radius_b,
    ) {
        (Some(ra), Some(rb)) => abs(ra - rb) < RADIUS_CLEARANCE,
        _ => false,
    }) {
        InterfaceType::PinInHole
    } else if (type_a == FaceType::Cylindrical && type_b == FaceType::Planar) || (type_a
        == FaceType::Planar && type_b == FaceType::Cylindrical) {
        InterfaceType::ShaftInBore
    } else {
        InterfaceType::Unknown
    }
}

/// The kind of contact of two faces.
pub fn classify_interface(
    type_a: FaceType,
    type_b: FaceType,
    alignment: i64,
    radius_a: Option<i64>,
    radius_b: Option<i64>,
) -> (kind: InterfaceType)
    ensures
        kind == classify_spec(type_a, type_b, alignment as int, radius_a, radius_b),
{
    let a_planar = matches!(type_a, FaceType::Planar);
    let b_planar = matches!(type_b, FaceType::Planar);
    let a_round = matches!(type_a, FaceType::Cylindrical);
    let b_round = matches!(type_b, FaceType::Cylindrical);
    if a_planar && b_planar && alignment < OPPOSING_COSINE {
        return InterfaceType::FaceToFace;
    }
    if a_round && b_round {
        match (radius_a, radius_b) {
            (Some(ra), Some(rb)) => {
                let difference: i128 = (ra as i128) - (rb as i128);
                if -(RADIUS_CLEARANCE as i128) < difference && difference
                    < RADIUS_CLEARANCE as i128 {
                    return InterfaceType::PinInHole;
                }
            },
            _ => {},
        }
    }
    if (a_round && b_planar) || (a_planar && b_round) {
        return InterfaceType::ShaftInBore;
    }
    InterfaceType::Unknown
}

/// Area of a circle of the radius `r`: the circle number times the square of
/// the radius, rounded.
pub open spec fn circle_area(r: int) -> int {
    round_div(PI_FINE * (r * r), AREA_DIVISOR as int)
}

/// The radius that a round contact goes by: that of the first face, else that
/// of the second.
pub open spec fn contact_radius(a: TransformedFace, b: TransformedFace) -> Option<i64> {
    match a.radius {
        Some(r) => Some(r),
        None => b.radius,
    }
}

/// Estimated area of a contact: `PLANE_CONTACT_AREA` face to face; for pin
/// and hole and for shaft and bore the area of the circle of the contact
/// radius, or `ROUND_CONTACT_AREA` where neither face has a radius;
/// `UNKNOWN_CONTACT_AREA` for a contact of unknown kind.
pub open spec fn contact_area_spec(a: TransformedFace, b: TransformedFace, kind: InterfaceType) -> int {
    match kind {
        InterfaceType::FaceToFace => PLANE_CONTACT_AREA as int,
        InterfaceType::PinInHole | InterfaceType::ShaftInBore => match contact_radius(a, b) {
            Some(r) => circle_area(r as int),
            None => ROUND_CONTACT_AREA as int,
        },
        InterfaceType::Unknown => UNKNOWN_CONTACT_AREA as int,
    }
}

/// Estimated area of a contact.
pub fn estimate_contact_area(
    face_a: &TransformedFace,
    face_b: &TransformedFace,
    interface_type: InterfaceType,
) -> (area: i64)
    requires
        face_a.in_range(),
        face_b.in_range(),
    ensures
        area == contact_area_spec(*face_a, *face_b, interface_type),
        area >= 0,
{
    match interface_type {
        InterfaceType::FaceToFace => PLANE_CONTACT_AREA,
        InterfaceType::PinInHole | InterfaceType::ShaftInBore => {
            let radius = match face_a.radius {
                Some(r) => Some(r),
                None => face_b.radius,
            };
            match radius {
                Some(r) => {
                    let wide: i128 = r as i128;
                    proof {
                        assert(0 <= wide * wide <= 1_000_000_000_000_000_000_000_000)
                            by (nonlinear_arith)
                            requires
                                -1_000_000_000_000 <= wide <= 1_000_000_000_000,
                        ;
                        let square = wide * wide;
                        let product = PI_FINE * square;
                        assert(0 <= product <= 3_141_592_653_590
                            * 1_000_000_000_000_000_000_000_000) by (nonlinear_arith)
                            requires
                                0 <= square <= 1_000_000_000_000_000_000_000_000,
                                product == PI_FINE * square,
                                PI_FINE == 3_141_592_653_590,
                        ;
                        lemma_round_div_bounds(
                            product,
                            1_000_000_000_000_000_000,
                            3_141_592_653_590_000_000,
                        );
                        assert(round_div(product, 1_000_000_000_000_000_000) >= 0) by {
                            vstd::arithmetic::div_mod::lemma_div_pos_is_pos(
                                2 * product + 1_000_000_000_000_000_000int,
                                2 * 1_000_000_000_000_000_000int,
                            );
                        }
                    }
                    let scaled: i128 = 3_141_592_653_590 * (wide * wide);
                    div_floor(
                        2 * scaled + 1_000_000_000_000_000_000,
                        2_000_000_000_000_000_000,
                    ) as i64
                },
                None => ROUND_CONTACT_AREA,
            }
        },
        InterfaceType::Unknown => UNKNOWN_CONTACT_AREA,
    }
}

/// What two faces in contact give.
#[derive(Clone, Copy, Debug)]
pub struct Contact {
    pub kind: InterfaceType,
    /// Distance of the centres of the faces.
    pub proximity: i64,
    /// Absolute cosine between the normals, held at one.
    pub alignment: i64,
    pub area: i64,
    /// The point half way between the centres.
    pub point: [i64; 3],
}

/// The contact of two faces in the frame of the assembly. There is none
/// where the centres are further apart than `proximity_threshold`, where the
/// absolute cosine between the normals is below `normal_threshold`, or where
/// the estimated area is below `min_contact_area`.
pub open spec fn contact_of(a: TransformedFace, b: TransformedFace, params: DetectionParams) -> Option<
    Contact,
> {
    let distance = distance_spec(a.center, b.center);
    let cosine = dot_spec(a.normal, b.normal);
    let kind = classify_spec(a.face_type, b.face_type, cosine, a.radius, b.radius);
    let area = contact_area_spec(a, b, kind);
    if distance > params.proximity_threshold || abs(cosine) < params.normal_threshold || area
        < params.min_contact_area {
        None
    } else {
        Some(
            Contact {
                kind,
                proximity: distance as i64,
                alignment: (if abs(cosine) > SCALE {
                    SCALE as int
                } else {
                    abs(cosine)
                }) as i64,
                area: area as i64,
                point: midpoint_spec(a.center, b.center),
            },
        )
    }
}

/// The contact of two faces in the frame of the assembly.
pub fn contact_between(a: &TransformedFace, b: &TransformedFace, params: &DetectionParams) -> (r:
    Option<Contact>)
    requires
        a.in_range(),
        b.in_range(),
    ensures
        r == contact_of(*a, *b, *params),
{
    let distance = vec_distance(&a.center, &b.center);
    if distance > params.proximity_threshold {
        return None;
    }
    let cosine = normal_alignment(&a.normal, &b.normal);
    proof {
        crate::geometry::lemma_dot_in_range(a.normal, b.normal);
    }
    let magnitude: i64 = if cosine < 0 {
        -cosine
    } else {
        cosine
    };
    if magnitude < params.normal_threshold {
        return None;
    }
    let kind = classify_interface(a.face_type, b.face_type, cosine, a.radius, b.radius);
    let area = estimate_contact_area(a, b, kind);
    if area < params.min_contact_area {
        return None;
    }
    Some(
        Contact {
            kind,
            proximity: distance,
            alignment: if magnitude > SCALE {
                SCALE
            } else {
                magnitude
            },
            area,
            point: midpoint(&a.center, &b.center),
        },
    )
}

/// A mating interface between two parts.
#[derive(Debug)]
pub struct DetectedInterface {
    pub id: Vec<u8>,
    pub part_a_id: Vec<u8>,
    pub part_a_face_id: i64,
    pub part_b_id: Vec<u8>,
    pub part_b_face_id: i64,
    pub interface_type: InterfaceType,
    pub proximity: i64,
    pub normal_alignment: i64,
    pub contact_area: i64,
    pub contact_point: [i64; 3],
}

/// The contact of a face of one part with a face of another, each in the
/// frame that the placement of its part places it in. A face or a placement
/// beyond the range of the arithmetic is in contact with nothing.
pub open spec fn contact_in_place(
    face_a: ParsedFace,
    placement_a: [i64; 16],
    face_b: ParsedFace,
    placement_b: [i64; 16],
    params: DetectionParams,
) -> Option<Contact> {
    if face_a.in_range() && placement_in_range(placement_a) && face_b.in_range()
        && placement_in_range(placement_b) {
        contact_of(world_face(face_a, placement_a), world_face(face_b, placement_b), params)
    } else {
        None
    }
}

/// The contact of face `face_a` of one part with face `face_b` of another.
pub struct FaceContact {
    pub face_a: int,
    pub face_b: int,
    pub contact: Contact,
}

/// The contacts of face `i` of the first part with the first `j` faces of the
/// second, in their order.
pub open spec fn row_contacts(
    faces_a: Seq<ParsedFace>,
    placement_a: [i64; 16],
    faces_b: Seq<ParsedFace>,
    placement_b: [i64; 16],
    params: DetectionParams,
    i: int,
    j: int,
) -> Seq<FaceContact>
    decreases j,
{
    if j <= 0 {
        Seq::empty()
    } else {
        let rest = row_contacts(faces_a, placement_a, faces_b, placement_b, params, i, j - 1);
        match contact_in_place(faces_a[i], placement_a, faces_b[j - 1], placement_b, params) {
            Some(c) => rest.push(FaceContact { face_a: i, face_b: j - 1, contact: c }),
            None => rest,
        }
    }
}

/// The contacts of the first `i` faces of the first part with every face of
/// the second: face by face of the first, and for each the faces of the
/// second in their order.
pub open spec fn pair_contacts(
    faces_a: Seq<ParsedFace>,
    placement_a: [i64; 16],
    faces_b: Seq<ParsedFace>,
    placement_b: [i64; 16],
    params: DetectionParams,
    i: int,
) -> Seq<FaceContact>
    decreases i,
{
    if i <= 0 {
        Seq::empty()
    } else {
        pair_contacts(faces_a, placement_a, faces_b, placement_b, params, i - 1) + row_contacts(
            faces_a,
            placement_a,
            faces_b,
            placement_b,
            params,
            i - 1,
            faces_b.len() as int,
        )
    }
}

/// The contacts between the faces of two parts.
pub open spec fn contacts_between(a: ParsedPart, b: ParsedPart, params: DetectionParams) -> Seq<
    FaceContact,
> {
    pair_contacts(a.faces@, a.transform, b.faces@, b.transform, params, a.faces@.len() as int)
}

/// `found` is the interface with the number `number` for a contact between
/// the parts `a` and `b`.
pub open spec fn is_interface(
    found: DetectedInterface,
    a: ParsedPart,
    b: ParsedPart,
    fc: FaceContact,
    number: int,
) -> bool {
    &&& found.id@ == numbered("interface-".spec_bytes(), number)
    &&& found.part_a_id@ == a.id@
    &&& found.part_a_face_id == a.faces@[fc.face_a].id
    &&& found.part_b_id@ == b.id@
    &&& found.part_b_face_id == b.faces@[fc.face_b].id
    &&& found.interface_type == fc.contact.kind
    &&& found.proximity == fc.contact.proximity
    &&& found.normal_alignment == fc.contact.alignment
    &&& found.contact_area == fc.contact.area
    &&& found.contact_point == fc.contact.point
}

/// The faces of a part in the frame of the assembly; none for a face that is
/// beyond the range of the arithmetic, or whose part is placed beyond it.
fn world_faces(part: &ParsedPart) -> (r: Vec<Option<TransformedFace>>)
    ensures
        r@.len() == part.faces@.len(),
        forall|k: int|
            0 <= k < r@.len() ==> (#[trigger] r@[k]) == placed_face(
                part.faces@[k],
                part.transform,
            ) && (r@[k] matches Some(t) ==> t.in_range()),
{
    let placed = check_placement(&part.transform);
    let mut r: Vec<Option<TransformedFace>> = Vec::new();
    let mut k: usize = 0;
    while k < part.faces.len()
        invariant
            k <= part.faces@.len(),
            placed == placement_in_range(part.transform),
            r@.len() == k,
            forall|i: int|
                0 <= i < k ==> (#[trigger] r@[i]) == placed_face(part.faces@[i], part.transform)
                    && (r@[i] matches Some(t) ==> t.in_range()),
        decreases part.faces@.len() - k,
    {
        if placed && part.faces[k].check_range() {
            r.push(Some(transform_face(&part.faces[k], &part.transform)));
        } else {
            r.push(None);
        }
        k = k + 1;
    }
    r
}

/// A face in the frame of the assembly, where the face and the placement are
/// within the range of the arithmetic.
pub open spec fn placed_face(face: ParsedFace, placement: [i64; 16]) -> Option<TransformedFace> {
    if face.in_range() && placement_in_range(placement) {
        Some(world_face(face, placement))
    } else {
        None
    }
}

/// The interfaces between two parts, numbered from `start + 1` on.
pub fn find_interfaces_between_parts(
    part_a: &ParsedPart,
    part_b: &ParsedPart,
    params: &DetectionParams,
    start: usize,
) -> (found: Vec<DetectedInterface>)
    ensures
        found@.len() == contacts_between(*part_a, *part_b, *params).len(),
        forall|k: int|
            0 <= k < found@.len() ==> is_interface(
                #[trigger] found@[k],
                *part_a,
                *part_b,
                contacts_between(*part_a, *part_b, *params)[k],
                start + k + 1,
            ),
{
    let faces_a = world_faces(part_a);
    let faces_b = world_faces(part_b);
    let ghost fa = part_a.faces@;
    let ghost fb = part_b.faces@;
    let ghost ma = part_a.transform;
    let ghost mb = part_b.transform;
    let mut found: Vec<DetectedInterface> = Vec::new();
    let mut i: usize = 0;
    while i < faces_a.len()
        invariant
            i <= faces_a@.len(),
            fa == part_a.faces@,
            fb == part_b.faces@,
            ma == part_a.transform,
            mb == part_b.transform,
            faces_a@.len() == fa.len(),
            faces_b@.len() == fb.len(),
            forall|k: int|
                0 <= k < faces_a@.len() ==> (#[trigger] faces_a@[k]) == placed_face(fa[k], ma)
                    && (faces_a@[k] matches Some(t) ==> t.in_range()),
            forall|k: int|
                0 <= k < faces_b@.len() ==> (#[trigger] faces_b@[k]) == placed_face(fb[k], mb)
                    && (faces_b@[k] matches Some(t) ==> t.in_range()),
            found@.len() == pair_contacts(fa, ma, fb, mb, *params, i as int).len(),
            forall|k: int|
                0 <= k < found@.len() ==> is_interface(
                    #[trigger] found@[k],
                    *part_a,
                    *part_b,
                    pair_contacts(fa, ma, fb, mb, *params, i as int)[k],
                    start + k + 1,
                ),
        decreases faces_a@.len() - i,
    {
        let ghost done = pair_contacts(fa, ma, fb, mb, *params, i as int);
        let mut j: usize = 0;
        while j < faces_b.len()
            invariant
                i < faces_a@.len(),
                j <= faces_b@.len(),
                fa == part_a.faces@,
                fb == part_b.faces@,
                ma == part_a.transform,
                mb == part_b.transform,
                faces_a@.len() == fa.len(),
                faces_b@.len() == fb.len(),
                done == pair_contacts(fa, ma, fb, mb, *params, i as int),
                forall|k: int|
                    0 <= k < faces_a@.len() ==> (#[trigger] faces_a@[k]) == placed_face(fa[k], ma)
                        && (faces_a@[k] matches Some(t) ==> t.in_range()),
                forall|k: int|
                    0 <= k < faces_b@.len() ==> (#[trigger] faces_b@[k]) == placed_face(fb[k], mb)
                        && (faces_b@[k] matches Some(t) ==> t.in_range()),
                found@.len() == (done + row_contacts(
                    fa,
                    ma,
                    fb,
                    mb,
                    *params,
                    i as int,
                    j as int,
                )).len(),
                forall|k: int|
                    0 <= k < found@.len() ==> is_interface(
                        #[trigger] found@[k],
                        *part_a,
                        *part_b,
                        (done + row_contacts(fa, ma, fb, mb, *params, i as int, j as int))[k],
                        start + k + 1,
                    ),
            decreases faces_b@.len() - j,
        {
            let ghost before = done + row_contacts(fa, ma, fb, mb, *params, i as int, j as int);
            let ghost old_found = found@;
            assert(faces_a@[i as int] == placed_face(fa[i as int], ma));
            assert(faces_b@[j as int] == placed_face(fb[j as int], mb));
            let contact = match (&faces_a[i], &faces_b[j]) {
                (Some(face_a), Some(face_b)) => contact_between(face_a, face_b, params),
                _ => None,
            };
            assert(contact == contact_in_place(fa[i as int], ma, fb[j as int], mb, *params));
            match contact {
                Some(c) => {
                    let number: u128 = (start as u128) + (found.len() as u128) + 1;
                    let entry = DetectedInterface {
                        id: numbered_count("interface-".as_bytes(), number),
                        part_a_id: copy_range(part_a.id.as_slice(), 0, part_a.id.len()),
                        part_a_face_id: part_a.faces[i].id,
                        part_b_id: copy_range(part_b.id.as_slice(), 0, part_b.id.len()),
                        part_b_face_id: part_b.faces[j].id,
                        interface_type: c.kind,
                        proximity: c.proximity,
                        normal_alignment: c.alignment,
                        contact_area: c.area,
                        contact_point: c.point,
                    };
                    proof {
                        assert(entry.part_a_id@ =~= part_a.id@);
                        assert(entry.part_b_id@ =~= part_b.id@);
                    }
                    found.push(entry);
                    proof {
                        let after = done + row_contacts(fa, ma, fb, mb, *params, i as int, j + 1);
                        let fc = FaceContact { face_a: i as int, face_b: j as int, contact: c };
                        assert(after =~= before.push(fc));
                        assert forall|k: int| 0 <= k < found@.len() implies is_interface(
                            #[trigger] found@[k],
                            *part_a,
                            *part_b,
                            after[k],
                            start + k + 1,
                        ) by {
                            if k < old_found.len() {
                                assert(found@[k] == old_found[k]);
                                assert(after[k] == before[k]);
                            }
                        }
                    }
                },
                None => {
                    assert(done + row_contacts(fa, ma, fb, mb, *params, i as int, j + 1)
                        =~= before);
                },
            }
            j = j + 1;
        }
        proof {
            assert(pair_contacts(fa, ma, fb, mb, *params, i + 1) =~= done + row_contacts(
                fa,
                ma,
                fb,
                mb,
                *params,
                i as int,
                fb.len() as int,
            ));
        }
        i = i + 1;
    }
    found
}

/// A contact between part `part_a` and part `part_b` of an assembly.
pub struct PairContact {
    pub part_a: int,
    pub part_b: int,
    pub face: FaceContact,
}

/// The contacts of two parts with the places of the parts in the assembly.
pub open spec fn tagged(contacts: Seq<FaceContact>, p: int, q: int) -> Seq<PairContact> {
    Seq::new(contacts.len(), |k: int| PairContact { part_a: p, part_b: q, face: contacts[k] })
}

/// The contacts of every pair of parts that comes before the pair `(p, q)`.
/// The pairs run over every part `p` in turn, and for each over the parts `q`
/// behind it.
pub open spec fn contacts_before(
    parts: Seq<ParsedPart>,
    params: DetectionParams,
    p: int,
    q: int,
) -> Seq<PairContact>
    decreases p, q,
{
    if p >= 0 && q > p + 1 {
        contacts_before(parts, params, p, q - 1) + tagged(
            contacts_between(parts[p], parts[q - 1], params),
            p,
            q - 1,
        )
    } else if p > 0 {
        contacts_before(parts, params, p - 1, parts.len() as int)
    } else {
        Seq::empty()
    }
}

/// The contacts of every pair of different parts of the assembly.
pub open spec fn all_contacts(parts: Seq<ParsedPart>, params: DetectionParams) -> Seq<PairContact> {
    contacts_before(parts, params, parts.len() as int, (parts.len() + 1) as int)
}

/// `found` is the interface with the number `number` for a contact of the
/// assembly.
pub open spec fn is_detected(
    found: DetectedInterface,
    parts: Seq<ParsedPart>,
    pc: PairContact,
    number: int,
) -> bool {
    is_interface(found, parts[pc.part_a], parts[pc.part_b], pc.face, number)
}

/// Number of times that the interfaces name the part `id`, on either side.
pub open spec fn appearances(interfaces: Seq<DetectedInterface>, id: Seq<u8>) -> nat
    decreases interfaces.len(),
{
    if interfaces.len() == 0 {
        0
    } else {
        appearances(interfaces.drop_last(), id) + (if interfaces.last().part_a_id@ == id {
            1nat
        } else {
            0nat
        }) + (if interfaces.last().part_b_id@ == id {
            1nat
        } else {
            0nat
        })
    }
}

/// One of the first `n` parts has the name `id`.
pub open spec fn named_before(parts: Seq<ParsedPart>, n: int, id: Seq<u8>) -> bool {
    exists|k: int| 0 <= k < n && (#[trigger] parts[k]).id@ == id
}

/// The junctions among the first `n` parts: the names of the parts that more
/// than one interface names, each once, in the order of the parts.
pub open spec fn junctions_upto(
    parts: Seq<ParsedPart>,
    interfaces: Seq<DetectedInterface>,
    n: int,
) -> Seq<Seq<u8>>
    decreases n,
{
    if n <= 0 {
        Seq::empty()
    } else if !named_before(parts, n - 1, parts[n - 1].id@) && appearances(
        interfaces,
        parts[n - 1].id@,
    ) > 1 {
        junctions_upto(parts, interfaces, n - 1).push(parts[n - 1].id@)
    } else {
        junctions_upto(parts, interfaces, n - 1)
    }
}

/// The bytes of each name, in the order of the names.
pub open spec fn names_of(names: Seq<Vec<u8>>) -> Seq<Seq<u8>> {
    Seq::new(names.len(), |k: int| names[k]@)
}

fn appears_twice(interfaces: &Vec<DetectedInterface>, id: &[u8]) -> (r: bool)
    ensures
        r == (appearances(interfaces@, id@) > 1),
{
    let mut count: u8 = 0;
    let mut k: usize = 0;
    while k < interfaces.len()
        invariant
            k <= interfaces@.len(),
            count <= 1,
            count == appearances(interfaces@.take(k as int), id@),
        decreases interfaces@.len() - k,
    {
        proof {
            let after = interfaces@.take(k + 1);
            assert(after.drop_last() =~= interfaces@.take(k as int));
            assert(after.last() == interfaces@[k as int]);
            lemma_appearances_grow(interfaces@, id@, k + 1);
        }
        if same_bytes(interfaces[k].part_a_id.as_slice(), id) {
            count = count + 1;
        }
        if same_bytes(interfaces[k].part_b_id.as_slice(), id) {
            count = count + 1;
        }
        if count > 1 {
            return true;
        }
        k = k + 1;
    }
    assert(interfaces@.take(interfaces@.len() as int) =~= interfaces@);
    false
}

proof fn lemma_appearances_grow(interfaces: Seq<DetectedInterface>, id: Seq<u8>, k: int)
    requires
        0 <= k <= interfaces.len(),
    ensures
        appearances(interfaces.take(k), id) <= appearances(interfaces, id),
    decreases interfaces.len() - k,
{
    if k < interfaces.len() {
        lemma_appearances_grow(interfaces, id, k + 1);
        assert(interfaces.take(k + 1).drop_last() =~= interfaces.take(k));
    } else {
        assert(interfaces.take(k) =~= interfaces);
    }
}

fn is_named_before(parts: &Vec<ParsedPart>, n: usize, id: &[u8]) -> (r: bool)
    requires
        n <= parts@.len(),
    ensures
        r == named_before(parts@, n as int, id@),
{
    let mut k: usize = 0;
    while k < n
        invariant
            k <= n <= parts@.len(),
            forall|i: int| 0 <= i < k ==> (#[trigger] parts@[i]).id@ != id@,
        decreases n - k,
    {
        if same_bytes(parts[k].id.as_slice(), id) {
            return true;
        }
        k = k + 1;
    }
    false
}

/// The junctions of an assembly: the names of the parts that more than one
/// interface names.
pub fn find_junction_parts(parts: &Vec<ParsedPart>, interfaces: &Vec<DetectedInterface>) -> (r:
    Vec<Vec<u8>>)
    ensures
        names_of(r@) == junctions_upto(parts@, interfaces@, parts@.len() as int),
{
    let mut r: Vec<Vec<u8>> = Vec::new();
    let mut n: usize = 0;
    while n < parts.len()
        invariant
            n <= parts@.len(),
            names_of(r@) == junctions_upto(parts@, interfaces@, n as int),
        decreases parts@.len() - n,
    {
        let id = parts[n].id.as_slice();
        if !is_named_before(parts, n, id) && appears_twice(interfaces, id) {
            let ghost before = names_of(r@);
            let ghost old_r = r@;
            let copy = copy_range(id, 0, id.len());
            assert(copy@ =~= id@);
            r.push(copy);
            assert forall|k: int| 0 <= k < old_r.len() implies names_of(r@)[k] == before[k] by {
                assert(r@[k] == old_r[k]);
            }
            assert(names_of(r@) =~= before.push(id@));
        }
        n = n + 1;
    }
    r
}

/// Result of the search for interfaces.
#[derive(Debug)]
pub struct InterfaceDetectionResult {
    pub success: bool,
    pub error: Option<String>,
    pub interfaces: Vec<DetectedInterface>,
    /// Names of the parts that more than one interface names.
    pub junction_parts: Vec<Vec<u8>>,
    pub total_interfaces: usize,
}

/// `r` holds the interfaces of the assembly, numbered from one in the order
/// of their contacts, and its junctions.
pub open spec fn is_detection_of(
    r: InterfaceDetectionResult,
    parts: Seq<ParsedPart>,
    params: DetectionParams,
) -> bool {
    let contacts = all_contacts(parts, params);
    &&& r.success
    &&& r.error is None
    &&& r.total_interfaces == contacts.len()
    &&& r.interfaces@.len() == contacts.len()
    &&& forall|k: int|
        0 <= k < contacts.len() ==> is_detected(#[trigger] r.interfaces@[k], parts, contacts[k], k + 1)
    &&& names_of(r.junction_parts@) == junctions_upto(parts, r.interfaces@, parts.len() as int)
}

/// The mating interfaces between the parts of an assembly and its junctions.
/// Every pair of different parts is searched, every face of the one against
/// every face of the other; the least contact area is one. The search always
/// succeeds: a face or a placement beyond the range of the arithmetic is
/// passed over.
pub fn detect_mating_interfaces(
    parts: Vec<ParsedPart>,
    proximity_threshold: i64,
    normal_threshold: i64,
) -> (r: InterfaceDetectionResult)
    ensures
        is_detection_of(
            r,
            parts@,
            DetectionParams { proximity_threshold, normal_threshold, min_contact_area: SCALE },
        ),
{
    let params = DetectionParams { proximity_threshold, normal_threshold, min_contact_area: SCALE };
    let mut interfaces: Vec<DetectedInterface> = Vec::new();
    let n = parts.len();
    let mut p: usize = 0;
    while p < n
        invariant
            p <= n,
            n == parts@.len(),
            interfaces@.len() == contacts_before(parts@, params, p as int, p + 1).len(),
            forall|k: int|
                0 <= k < interfaces@.len() ==> is_detected(
                    #[trigger] interfaces@[k],
                    parts@,
                    contacts_before(parts@, params, p as int, p + 1)[k],
                    k + 1,
                ),
        decreases n - p,
    {
        let mut q: usize = p + 1;
        while q < n
            invariant
                p < n,
                p + 1 <= q <= n,
                n == parts@.len(),
                    interfaces@.len() == contacts_before(parts@, params, p as int, q as int).len(),
                forall|k: int|
                    0 <= k < interfaces@.len() ==> is_detected(
                        #[trigger] interfaces@[k],
                        parts@,
                        contacts_before(parts@, params, p as int, q as int)[k],
                        k + 1,
                    ),
            decreases n - q,
        {
            let ghost before = contacts_before(parts@, params, p as int, q as int);
            let ghost old_found = interfaces@;
            let mut pair = find_interfaces_between_parts(
                &parts[p],
                &parts[q],
                &params,
                interfaces.len(),
            );
            let ghost pair_view = pair@;
            interfaces.append(&mut pair);
            proof {
                let between = contacts_between(parts@[p as int], parts@[q as int], params);
                let after = contacts_before(parts@, params, p as int, q + 1);
                assert(after =~= before + tagged(between, p as int, q as int));
                assert(interfaces@ =~= old_found + pair_view);
                assert forall|k: int| 0 <= k < interfaces@.len() implies is_detected(
                    #[trigger] interfaces@[k],
                    parts@,
                    after[k],
                    k + 1,
                ) by {
                    if k < old_found.len() {
                        assert(interfaces@[k] == old_found[k]);
                        assert(after[k] == before[k]);
                    } else {
                        let i = k - old_found.len();
                        assert(interfaces@[k] == pair_view[i]);
                        assert(after[k] == tagged(between, p as int, q as int)[i]);
                    }
                }
            }
            q = q + 1;
        }
        p = p + 1;
    }
    let junction_parts = find_junction_parts(&parts, &interfaces);
    InterfaceDetectionResult {
        success: true,
        error: None,
        total_interfaces: interfaces.len(),
        interfaces,
        junction_parts,
    }
}

/// Two faces are near enough and aligned enough for a contact: their centres
/// are no further apart than the threshold and the absolute cosine between
/// their normals is not below the threshold.
pub open spec fn in_reach(a: TransformedFace, b: TransformedFace, params: DetectionParams) -> bool {
    distance_spec(a.center, b.center) <= params.proximity_threshold && abs(
        dot_spec(a.normal, b.normal),
    ) >= params.normal_threshold
}

/// The estimated area of the contact of two faces is on the same side of the
/// least area whichever of the two comes first. It is not where both faces
/// have a radius and the circle of the one is below that area, the circle of
/// the other not.
pub open spec fn area_agrees(a: TransformedFace, b: TransformedFace, params: DetectionParams) -> bool {
    let kind = classify_spec(
        a.face_type,
        b.face_type,
        dot_spec(a.normal, b.normal),
        a.radius,
        b.radius,
    );
    (contact_area_spec(a, b, kind) < params.min_contact_area) == (contact_area_spec(b, a, kind)
        < params.min_contact_area)
}

/// Two faces are in contact in the one order if and only if they are in the
/// other, with the same kind, distance, cosine and point. Left out are the
/// faces in reach of each other whose estimated area is on different sides
/// of the least area in the two orders.
pub proof fn lemma_contact_is_symmetric(
    a: TransformedFace,
    b: TransformedFace,
    params: DetectionParams,
)
    requires
        in_reach(a, b, params) ==> area_agrees(a, b, params),
    ensures
        contact_of(a, b, params) is Some <==> contact_of(b, a, params) is Some,
        contact_of(a, b, params) matches Some(c) ==> {
            let d = contact_of(b, a, params).unwrap();
            &&& c.kind == d.kind
            &&& c.proximity == d.proximity
            &&& c.alignment == d.alignment
            &&& c.point == d.point
        },
{
    let x = b.center[0] - a.center[0];
    let y = b.center[1] - a.center[1];
    let z = b.center[2] - a.center[2];
    assert(x * x == (-x) * (-x) && y * y == (-y) * (-y) && z * z == (-z) * (-z))
        by (nonlinear_arith);
    assert(distance_spec(a.center, b.center) == distance_spec(b.center, a.center));
    assert(a.normal[0] * b.normal[0] == b.normal[0] * a.normal[0] && a.normal[1] * b.normal[1]
        == b.normal[1] * a.normal[1] && a.normal[2] * b.normal[2] == b.normal[2] * a.normal[2])
        by (nonlinear_arith);
    assert(dot_spec(a.normal, b.normal) == dot_spec(b.normal, a.normal));
    assert(midpoint_spec(a.center, b.center) == midpoint_spec(b.center, a.center));
}

/// The contacts hold one of face `i` of the first part with face `j` of the
/// second.
pub open spec fn has_pair(contacts: Seq<FaceContact>, i: int, j: int) -> bool {
    exists|k: int|
        0 <= k < contacts.len() && (#[trigger] contacts[k]).face_a == i && contacts[k].face_b == j
}

/// Face `i` of the part `a` and face `j` of the part `b` are in contact.
pub open spec fn in_contact(a: ParsedPart, i: int, b: ParsedPart, j: int, params: DetectionParams) -> bool {
    contact_in_place(a.faces@[i], a.transform, b.faces@[j], b.transform, params) is Some
}

proof fn lemma_row_holds(
    faces_a: Seq<ParsedFace>,
    placement_a: [i64; 16],
    faces_b: Seq<ParsedFace>,
    placement_b: [i64; 16],
    params: DetectionParams,
    i: int,
    n: int,
    i2: int,
    j2: int,
)
    requires
        0 <= n,
    ensures
        has_pair(row_contacts(faces_a, placement_a, faces_b, placement_b, params, i, n), i2, j2)
            <==> (i2 == i && 0 <= j2 < n && contact_in_place(faces_a[i], placement_a, faces_b[j2], placement_b, params) is Some),
    decreases n,
{
    let row = row_contacts(faces_a, placement_a, faces_b, placement_b, params, i, n);
    if n > 0 {
        let rest = row_contacts(faces_a, placement_a, faces_b, placement_b, params, i, n - 1);
        lemma_row_holds(faces_a, placement_a, faces_b, placement_b, params, i, n - 1, i2, j2);
        let c = contact_in_place(faces_a[i], placement_a, faces_b[n - 1], placement_b, params);
        if has_pair(rest, i2, j2) {
            let k = choose|k: int|
                0 <= k < rest.len() && (#[trigger] rest[k]).face_a == i2 && rest[k].face_b == j2;
            assert(row[k] == rest[k]);
        }
        if has_pair(row, i2, j2) {
            let k = choose|k: int|
                0 <= k < row.len() && (#[trigger] row[k]).face_a == i2 && row[k].face_b == j2;
            if k < rest.len() {
                assert(rest[k] == row[k]);
            }
        }
        if c is Some && i2 == i && j2 == n - 1 {
            assert(row[rest.len() as int].face_a == i2);
        }
    }
}

proof fn lemma_pair_holds(
    faces_a: Seq<ParsedFace>,
    placement_a: [i64; 16],
    faces_b: Seq<ParsedFace>,
    placement_b: [i64; 16],
    params: DetectionParams,
    n: int,
    i2: int,
    j2: int,
)
    requires
        0 <= n,
    ensures
        has_pair(pair_contacts(faces_a, placement_a, faces_b, placement_b, params, n), i2, j2)
            <==> (0 <= i2 < n && 0 <= j2 < faces_b.len() && contact_in_place(faces_a[i2], placement_a, faces_b[j2], placement_b, params) is Some),
    decreases n,
{
    let all = pair_contacts(faces_a, placement_a, faces_b, placement_b, params, n);
    if n > 0 {
        let rest = pair_contacts(faces_a, placement_a, faces_b, placement_b, params, n - 1);
        let row = row_contacts(
            faces_a,
            placement_a,
            faces_b,
            placement_b,
            params,
            n - 1,
            faces_b.len() as int,
        );
        lemma_pair_holds(faces_a, placement_a, faces_b, placement_b, params, n - 1, i2, j2);
        lemma_row_holds(
            faces_a,
            placement_a,
            faces_b,
            placement_b,
            params,
            n - 1,
            faces_b.len() as int,
            i2,
            j2,
        );
        if has_pair(rest, i2, j2) {
            let k = choose|k: int|
                0 <= k < rest.len() && (#[trigger] rest[k]).face_a == i2 && rest[k].face_b == j2;
            assert(all[k] == rest[k]);
        }
        if has_pair(row, i2, j2) {
            let k = choose|k: int|
                0 <= k < row.len() && (#[trigger] row[k]).face_a == i2 && row[k].face_b == j2;
            assert(all[rest.len() + k] == row[k]);
        }
        if has_pair(all, i2, j2) {
            let k = choose|k: int|
                0 <= k < all.len() && (#[trigger] all[k]).face_a == i2 && all[k].face_b == j2;
            if k < rest.len() {
                assert(rest[k] == all[k]);
            } else {
                assert(row[k - rest.len()] == all[k]);
            }
        }
    }
}

/// The interfaces between two parts hold a pair of faces if and only if the
/// two faces are in contact.
pub proof fn lemma_contacts_hold_pairs_in_contact(
    a: ParsedPart,
    b: ParsedPart,
    params: DetectionParams,
    i: int,
    j: int,
)
    requires
        0 <= i < a.faces@.len(),
        0 <= j < b.faces@.len(),
    ensures
        has_pair(contacts_between(a, b, params), i, j) <==> in_contact(a, i, b, j, params),
{
    lemma_pair_holds(
        a.faces@,
        a.transform,
        b.faces@,
        b.transform,
        params,
        a.faces@.len() as int,
        i,
        j,
    );
}

/// The search between two parts finds the same pairs of faces whichever of
/// the two parts comes first: a pair of faces is found in the one order if
/// and only if it is found in the other. Left out are the pairs in reach of
/// each other whose estimated area is on different sides of the least area
/// in the two orders.
pub proof fn lemma_detection_is_symmetric(
    a: ParsedPart,
    b: ParsedPart,
    params: DetectionParams,
    i: int,
    j: int,
)
    requires
        0 <= i < a.faces@.len(),
        0 <= j < b.faces@.len(),
        in_reach(
            world_face(a.faces@[i], a.transform),
            world_face(b.faces@[j], b.transform),
            params,
        ) ==> area_agrees(
            world_face(a.faces@[i], a.transform),
            world_face(b.faces@[j], b.transform),
            params,
        ),
    ensures
        has_pair(contacts_between(a, b, params), i, j) <==> has_pair(
            contacts_between(b, a, params),
            j,
            i,
        ),
{
    lemma_contacts_hold_pairs_in_contact(a, b, params, i, j);
    lemma_contacts_hold_pairs_in_contact(b, a, params, j, i);
    lemma_contact_is_symmetric(
        world_face(a.faces@[i], a.transform),
        world_face(b.faces@[j], b.transform),
        params,
    );
}

/// Number of the first `n` faces of `b` that are in contact with face `i` of
/// `a`.
pub open spec fn contacts_of_face(
    a: ParsedPart,
    i: int,
    b: ParsedPart,
    params: DetectionParams,
    n: int,
) -> int
    decreases n,
{
    if n <= 0 {
        0
    } else {
        contacts_of_face(a, i, b, params, n - 1) + (if in_contact(a, i, b, n - 1, params) {
            1int
        } else {
            0int
        })
    }
}

/// Number of the first `m` faces of `a` that are in contact with face `j` of
/// `b`.
pub open spec fn contacts_with_face(
    a: ParsedPart,
    m: int,
    b: ParsedPart,
    j: int,
    params: DetectionParams,
) -> int
    decreases m,
{
    if m <= 0 {
        0
    } else {
        contacts_with_face(a, m - 1, b, j, params) + (if in_contact(a, m - 1, b, j, params) {
            1int
        } else {
            0int
        })
    }
}

/// Number of pairs in contact of the first `m` faces of `a` and the first
/// `n` faces of `b`, counted face by face of `a`.
pub open spec fn contacts_by_rows(
    a: ParsedPart,
    b: ParsedPart,
    params: DetectionParams,
    m: int,
    n: int,
) -> int
    decreases m,
{
    if m <= 0 {
        0
    } else {
        contacts_by_rows(a, b, params, m - 1, n) + contacts_of_face(a, m - 1, b, params, n)
    }
}

/// The same number, counted face by face of `b`.
pub open spec fn contacts_by_columns(
    a: ParsedPart,
    b: ParsedPart,
    params: DetectionParams,
    m: int,
    n: int,
) -> int
    decreases n,
{
    if n <= 0 {
        0
    } else {
        contacts_by_columns(a, b, params, m, n - 1) + contacts_with_face(a, m, b, n - 1, params)
    }
}

proof fn lemma_column_grows(a: ParsedPart, b: ParsedPart, params: DetectionParams, m: int, n: int)
    requires
        m > 0,
        n >= 0,
    ensures
        contacts_by_columns(a, b, params, m, n) == contacts_by_columns(a, b, params, m - 1, n)
            + contacts_of_face(a, m - 1, b, params, n),
    decreases n,
{
    if n > 0 {
        lemma_column_grows(a, b, params, m, n - 1);
    }
}

proof fn lemma_no_rows(a: ParsedPart, b: ParsedPart, params: DetectionParams, n: int)
    requires
        n >= 0,
    ensures
        contacts_by_columns(a, b, params, 0, n) == 0,
    decreases n,
{
    if n > 0 {
        lemma_no_rows(a, b, params, n - 1);
    }
}

proof fn lemma_rows_are_columns(a: ParsedPart, b: ParsedPart, params: DetectionParams, m: int, n: int)
    requires
        m >= 0,
        n >= 0,
    ensures
        contacts_by_rows(a, b, params, m, n) == contacts_by_columns(a, b, params, m, n),
    decreases m,
{
    if m > 0 {
        lemma_rows_are_columns(a, b, params, m - 1, n);
        lemma_column_grows(a, b, params, m, n);
    } else {
        lemma_no_rows(a, b, params, n);
    }
}

proof fn lemma_row_length(a: ParsedPart, b: ParsedPart, params: DetectionParams, i: int, n: int)
    requires
        n >= 0,
    ensures
        row_contacts(a.faces@, a.transform, b.faces@, b.transform, params, i, n).len()
            == contacts_of_face(a, i, b, params, n),
    decreases n,
{
    if n > 0 {
        lemma_row_length(a, b, params, i, n - 1);
    }
}

proof fn lemma_pair_length(a: ParsedPart, b: ParsedPart, params: DetectionParams, m: int)
    requires
        m >= 0,
    ensures
        pair_contacts(a.faces@, a.transform, b.faces@, b.transform, params, m).len()
            == contacts_by_rows(a, b, params, m, b.faces@.len() as int),
    decreases m,
{
    if m > 0 {
        lemma_pair_length(a, b, params, m - 1);
        lemma_row_length(a, b, params, m - 1, b.faces@.len() as int);
    }
}

proof fn lemma_swapped_face(a: ParsedPart, b: ParsedPart, params: DetectionParams, j: int, m: int)
    requires
        0 <= m <= a.faces@.len(),
        0 <= j < b.faces@.len(),
        forall|i: int, k: int|
            0 <= i < a.faces@.len() && 0 <= k < b.faces@.len() ==> (#[trigger] in_contact(
                a,
                i,
                b,
                k,
                params,
            ) <==> in_contact(b, k, a, i, params)),
    ensures
        contacts_of_face(b, j, a, params, m) == contacts_with_face(a, m, b, j, params),
    decreases m,
{
    if m > 0 {
        lemma_swapped_face(a, b, params, j, m - 1);
        assert(in_contact(a, m - 1, b, j, params) <==> in_contact(b, j, a, m - 1, params));
    }
}

proof fn lemma_swapped_rows(a: ParsedPart, b: ParsedPart, params: DetectionParams, n: int)
    requires
        0 <= n <= b.faces@.len(),
        forall|i: int, k: int|
            0 <= i < a.faces@.len() && 0 <= k < b.faces@.len() ==> (#[trigger] in_contact(
                a,
                i,
                b,
                k,
                params,
            ) <==> in_contact(b, k, a, i, params)),
    ensures
        contacts_by_rows(b, a, params, n, a.faces@.len() as int) == contacts_by_columns(
            a,
            b,
            params,
            a.faces@.len() as int,
            n,
        ),
    decreases n,
{
    if n > 0 {
        lemma_swapped_rows(a, b, params, n - 1);
        lemma_swapped_face(a, b, params, n - 1, a.faces@.len() as int);
    }
}

/// The search between two parts finds as many interfaces whichever of the
/// two parts comes first. Left out are the parts with a pair of faces in
/// reach of each other whose estimated area is on different sides of the
/// least area in the two orders.
pub proof fn lemma_detection_finds_as_many(a: ParsedPart, b: ParsedPart, params: DetectionParams)
    requires
        forall|i: int, j: int|
            0 <= i < a.faces@.len() && 0 <= j < b.faces@.len() && in_reach(
                world_face(a.faces@[i], a.transform),
                world_face(b.faces@[j], b.transform),
                params,
            ) ==> #[trigger] area_agrees(
                world_face(a.faces@[i], a.transform),
                world_face(b.faces@[j], b.transform),
                params,
            ),
    ensures
        contacts_between(a, b, params).len() == contacts_between(b, a, params).len(),
{
    let m = a.faces@.len() as int;
    let n = b.faces@.len() as int;
    assert forall|i: int, k: int| 0 <= i < m && 0 <= k < n implies (#[trigger] in_contact(
        a,
        i,
        b,
        k,
        params,
    ) <==> in_contact(b, k, a, i, params)) by {
        let fa = world_face(a.faces@[i], a.transform);
        let fb = world_face(b.faces@[k], b.transform);
        if in_reach(fa, fb, params) {
            assert(area_agrees(fa, fb, params));
        }
        lemma_contact_is_symmetric(fa, fb, params);
    }
    lemma_pair_length(a, b, params, m);
    lemma_pair_length(b, a, params, n);
    lemma_rows_are_columns(a, b, params, m, n);
    lemma_swapped_rows(a, b, params, n);
}

} // verus!
