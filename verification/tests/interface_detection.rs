use stackup_core::assembly_parser::FaceType;
use stackup_core::assembly_parser::ParsedFace;
use stackup_core::assembly_parser::ParsedPart;
use stackup_core::geometry::identity_matrix;
use stackup_core::geometry::midpoint;
use stackup_core::geometry::transform_direction;
use stackup_core::geometry::transform_point;
use stackup_core::geometry::vec_distance;
use stackup_core::interface_detection::classify_interface;
use stackup_core::interface_detection::contact_between;
use stackup_core::interface_detection::detect_mating_interfaces;
use stackup_core::interface_detection::estimate_contact_area;
use stackup_core::interface_detection::find_interfaces_between_parts;
use stackup_core::interface_detection::find_junction_parts;
use stackup_core::interface_detection::normal_alignment;
use stackup_core::interface_detection::transform_face;
use stackup_core::interface_detection::DetectionParams;
use stackup_core::interface_detection::InterfaceType;
use stackup_core::interface_detection::TransformedFace;

const S: i64 = 1_000_000;

fn fixed(x: f64) -> i64 {
    (x * 1e6).round() as i64
}

fn in_units(x: i64) -> f64 {
    x as f64 / 1e6
}

fn point(x: f64, y: f64, z: f64) -> [i64; 3] {
    [fixed(x), fixed(y), fixed(z)]
}

fn face(id: i64, kind: &str, center: [i64; 3], normal: [i64; 3], radius: Option<i64>) -> ParsedFace {
    ParsedFace {
        id,
        face_type: FaceType::from_name(kind),
        normal,
        center,
        area: 0,
        radius,
        axis: None,
        step_entity_id: None,
    }
}

fn part(id: &str, faces: Vec<ParsedFace>) -> ParsedPart {
    ParsedPart {
        id: id.as_bytes().to_vec(),
        name: id.as_bytes().to_vec(),
        step_entity_id: 1,
        transform: identity_matrix(),
        bounding_box: None,
        faces,
        product_definition_id: None,
    }
}

fn world(kind: &str, center: [i64; 3], normal: [i64; 3], radius: Option<i64>) -> TransformedFace {
    TransformedFace { center, normal, face_type: FaceType::from_name(kind), radius }
}

#[test]
fn test_vec_distance() {
    let a = point(0.0, 0.0, 0.0);
    let b = point(3.0, 4.0, 0.0);
    assert!((in_units(vec_distance(&a, &b)) - 5.0).abs() < 1e-6);
}

#[test]
fn test_normal_alignment() {
    let a = point(0.0, 0.0, 1.0);
    let b = point(0.0, 0.0, -1.0);
    assert!((in_units(normal_alignment(&a, &b)) - (-1.0)).abs() < 1e-6);
}

#[test]
fn test_classify_face_to_face() {
    let result = classify_interface(
        FaceType::from_name("planar"),
        FaceType::from_name("planar"),
        fixed(-0.99),
        None,
        None,
    );
    assert_eq!(result.name(), "face_to_face");
}

#[test]
fn distance_is_floored() {
    assert_eq!(vec_distance(&[0, 0, 0], &[3 * S, 4 * S, 0]), 5 * S);
    assert_eq!(vec_distance(&[1, 1, 1], &[2, 2, 2]), 1);
    assert_eq!(vec_distance(&[7, -7, 7], &[7, -7, 7]), 0);
    assert_eq!(midpoint(&[0, 0, 0], &[3, -3, 4]), [1, -2, 2]);
}

#[test]
fn interface_kinds_by_face_types() {
    let planar = FaceType::Planar;
    let round = FaceType::Cylindrical;
    assert_eq!(classify_interface(planar, planar, -900_001, None, None), InterfaceType::FaceToFace);
    assert_eq!(classify_interface(planar, planar, -900_000, None, None), InterfaceType::Unknown);
    assert_eq!(classify_interface(planar, planar, S, None, None), InterfaceType::Unknown);
    assert_eq!(
        classify_interface(round, round, 0, Some(5_000_000), Some(5_499_999)),
        InterfaceType::PinInHole
    );
    assert_eq!(
        classify_interface(round, round, 0, Some(5_500_000), Some(5_000_000)),
        InterfaceType::Unknown
    );
    assert_eq!(classify_interface(round, round, 0, Some(5_000_000), None), InterfaceType::Unknown);
    assert_eq!(classify_interface(round, planar, 0, None, None), InterfaceType::ShaftInBore);
    assert_eq!(classify_interface(planar, round, 0, None, None), InterfaceType::ShaftInBore);
    assert_eq!(
        classify_interface(FaceType::Conical, planar, -S, None, None),
        InterfaceType::Unknown
    );
    assert_eq!(InterfaceType::PinInHole.name(), "pin_in_hole");
    assert_eq!(InterfaceType::ShaftInBore.name(), "shaft_in_bore");
    assert_eq!(InterfaceType::Unknown.name(), "unknown");
}

#[test]
fn contact_area_by_kind() {
    let a = world("cylindrical", [0, 0, 0], [S, 0, 0], Some(5 * S));
    let b = world("cylindrical", [0, 0, 0], [S, 0, 0], Some(2 * S));
    let bare = world("planar", [0, 0, 0], [S, 0, 0], None);
    assert_eq!(estimate_contact_area(&a, &b, InterfaceType::FaceToFace), 10 * S);
    assert_eq!(estimate_contact_area(&a, &b, InterfaceType::PinInHole), 78_539_816);
    assert_eq!(estimate_contact_area(&b, &a, InterfaceType::PinInHole), 12_566_371);
    assert_eq!(estimate_contact_area(&bare, &b, InterfaceType::ShaftInBore), 12_566_371);
    assert_eq!(estimate_contact_area(&bare, &bare, InterfaceType::ShaftInBore), 5 * S);
    assert_eq!(estimate_contact_area(&a, &b, InterfaceType::Unknown), S);
}

#[test]
fn default_parameters() {
    let params = DetectionParams::default();
    assert_eq!(params.proximity_threshold, 2_000_000);
    assert_eq!(params.normal_threshold, 950_000);
    assert_eq!(params.min_contact_area, 1_000_000);
}

#[test]
fn placement_turns_and_moves_a_face() {
    let quarter_turn = [0, S, 0, 0, -S, 0, 0, 0, 0, 0, S, 0, S, 2 * S, 3 * S, S];
    assert_eq!(transform_point(&[S, 0, 0], &quarter_turn), [S, 3 * S, 3 * S]);
    assert_eq!(transform_point(&[0, S, 5], &quarter_turn), [0, 2 * S, 3 * S + 5]);
    assert_eq!(transform_direction(&[2 * S, 0, 0], &quarter_turn), [0, S, 0]);
    assert_eq!(transform_direction(&[0, 0, 0], &quarter_turn), [0, 0, 0]);
    let f = face(3, "cylindrical", [S, 0, 0], [0, 5, 0], Some(7));
    let moved = transform_face(&f, &quarter_turn);
    assert_eq!(moved.center, [S, 3 * S, 3 * S]);
    assert_eq!(moved.normal, [-S, 0, 0]);
    assert_eq!(moved.face_type, FaceType::Cylindrical);
    assert_eq!(moved.radius, Some(7));
    let same = transform_face(&f, &identity_matrix());
    assert_eq!(same.center, [S, 0, 0]);
    assert_eq!(same.normal, [0, S, 0]);
}

#[test]
fn parts_without_near_faces_have_no_interface() {
    let a = part("part-0", vec![face(0, "planar", point(0.0, 0.0, 0.0), [0, 0, S], None)]);
    let b = part("part-1", vec![face(0, "planar", point(0.0, 0.0, 2.5), [0, 0, -S], None)]);
    let result = detect_mating_interfaces(vec![a, b], fixed(2.0), fixed(0.95));
    assert!(result.success);
    assert_eq!(result.error, None);
    assert!(result.interfaces.is_empty());
    assert!(result.junction_parts.is_empty());
    assert_eq!(result.total_interfaces, 0);
}

#[test]
fn no_parts_no_interfaces() {
    let result = detect_mating_interfaces(Vec::new(), fixed(2.0), fixed(0.95));
    assert!(result.success);
    assert_eq!(result.total_interfaces, 0);
    let alone = part("part-0", vec![face(0, "planar", [0, 0, 0], [0, 0, S], None)]);
    assert_eq!(detect_mating_interfaces(vec![alone], fixed(2.0), fixed(0.95)).total_interfaces, 0);
}

#[test]
fn opposing_planes_stand_face_to_face() {
    let a = part("part-0", vec![face(4, "planar", point(0.0, 0.0, 0.0), [0, 0, S], None)]);
    let b = part("part-1", vec![face(9, "planar", point(0.0, 0.0, 0.5), [0, 0, -S], None)]);
    let result = detect_mating_interfaces(vec![a, b], fixed(2.0), fixed(0.95));
    assert!(result.success);
    assert_eq!(result.total_interfaces, 1);
    let found = &result.interfaces[0];
    assert_eq!(found.id, b"interface-1".to_vec());
    assert_eq!(found.part_a_id, b"part-0".to_vec());
    assert_eq!(found.part_a_face_id, 4);
    assert_eq!(found.part_b_id, b"part-1".to_vec());
    assert_eq!(found.part_b_face_id, 9);
    assert_eq!(found.interface_type, InterfaceType::FaceToFace);
    assert_eq!(found.normal_alignment, 1_000_000);
    assert_eq!(found.proximity, 500_000);
    assert_eq!(found.contact_area, 10_000_000);
    assert_eq!(found.contact_point, [0, 0, 250_000]);
    assert!(result.junction_parts.is_empty());
}

#[test]
fn cylinders_of_like_radius_are_pin_and_hole() {
    let a = part("pin", vec![face(0, "cylindrical", point(0.0, 0.0, 0.0), [S, 0, 0], Some(fixed(5.0)))]);
    let b = part("hole", vec![face(0, "cylindrical", point(0.0, 0.3, 0.0), [S, 0, 0], Some(fixed(5.1)))]);
    let result = detect_mating_interfaces(vec![a, b], fixed(2.0), fixed(0.95));
    assert_eq!(result.total_interfaces, 1);
    let found = &result.interfaces[0];
    assert_eq!(found.interface_type, InterfaceType::PinInHole);
    assert_eq!(found.contact_area, 78_539_816);
    assert!((in_units(found.contact_area) - std::f64::consts::PI * 25.0).abs() < 1e-6);
    assert_eq!(found.proximity, 300_000);
    assert_eq!(found.contact_point, [0, 150_000, 0]);
}

#[test]
fn faces_further_apart_than_the_threshold_are_passed_over() {
    let a = world("planar", [0, 0, 0], [0, 0, S], None);
    let b = world("planar", [0, 0, 2 * S], [0, 0, -S], None);
    let c = world("planar", [0, 0, 2 * S + 1], [0, 0, -S], None);
    let params = DetectionParams::default();
    assert!(contact_between(&a, &b, &params).is_some());
    assert!(contact_between(&a, &c, &params).is_none());
}

#[test]
fn faces_with_unaligned_normals_are_passed_over() {
    let a = world("planar", [0, 0, 0], [0, 0, S], None);
    let b = world("planar", [0, 0, S], [S, 0, 0], None);
    let strict = DetectionParams::default();
    assert!(contact_between(&a, &b, &strict).is_none());
    let loose = DetectionParams { normal_threshold: 0, ..strict };
    let contact = contact_between(&a, &b, &loose).unwrap();
    assert_eq!(contact.kind, InterfaceType::Unknown);
    assert_eq!(contact.alignment, 0);
    assert_eq!(contact.area, S);
    assert_eq!(contact.proximity, S);
    let slanted = world("planar", [0, 0, S], [0, 312_250, -950_000], None);
    assert_eq!(contact_between(&a, &slanted, &strict).unwrap().kind, InterfaceType::FaceToFace);
    let more = world("planar", [0, 0, S], [0, 312_252, -949_999], None);
    assert!(contact_between(&a, &more, &strict).is_none());
}

#[test]
fn contacts_below_the_least_area_are_passed_over() {
    let small = world("cylindrical", [0, 0, 0], [S, 0, 0], Some(fixed(0.5)));
    let large = world("cylindrical", [0, 0, 0], [S, 0, 0], Some(fixed(0.6)));
    let params = DetectionParams::default();
    assert!(contact_between(&small, &large, &params).is_none());
    let contact = contact_between(&large, &small, &params).unwrap();
    assert_eq!(contact.kind, InterfaceType::PinInHole);
    assert_eq!(contact.area, 1_130_973);
}

#[test]
fn a_cylinder_and_a_plane_are_shaft_and_bore() {
    let shaft = part("shaft", vec![face(0, "cylindrical", [0, 0, 0], [S, 0, 0], Some(2 * S))]);
    let bore = part("bore", vec![face(0, "planar", [S, 0, 0], [-S, 0, 0], None)]);
    let result = detect_mating_interfaces(vec![shaft, bore], fixed(2.0), fixed(0.95));
    assert_eq!(result.total_interfaces, 1);
    assert_eq!(result.interfaces[0].interface_type, InterfaceType::ShaftInBore);
    assert_eq!(result.interfaces[0].contact_area, 12_566_371);
    assert_eq!(result.interfaces[0].normal_alignment, S);
}

#[test]
fn search_finds_the_same_pairs_in_either_order() {
    let a_faces = vec![
        face(0, "planar", point(0.0, 0.0, 0.0), [0, 0, S], None),
        face(1, "cylindrical", point(5.0, 0.0, 0.0), [S, 0, 0], Some(fixed(2.0))),
        face(2, "planar", point(9.0, 9.0, 9.0), [0, S, 0], None),
    ];
    let b_faces = vec![
        face(0, "cylindrical", point(5.0, 0.5, 0.0), [S, 0, 0], Some(fixed(2.2))),
        face(1, "planar", point(0.0, 0.0, 1.0), [0, 0, -S], None),
        face(2, "planar", point(5.0, 0.0, 1.0), [-S, 0, 0], None),
    ];
    let a = part("a", a_faces);
    let b = part("b", b_faces);
    let params = DetectionParams::default();
    let forward = find_interfaces_between_parts(&a, &b, &params, 0);
    let backward = find_interfaces_between_parts(&b, &a, &params, 0);
    let mut pairs: Vec<(i64, i64)> =
        forward.iter().map(|f| (f.part_a_face_id, f.part_b_face_id)).collect();
    let mut swapped: Vec<(i64, i64)> =
        backward.iter().map(|f| (f.part_b_face_id, f.part_a_face_id)).collect();
    assert_eq!(pairs, vec![(0, 1), (1, 0), (1, 2)]);
    pairs.sort();
    swapped.sort();
    assert_eq!(pairs, swapped);
    assert_eq!(forward[0].interface_type, InterfaceType::FaceToFace);
    assert_eq!(forward[1].interface_type, InterfaceType::PinInHole);
    assert_eq!(forward[2].interface_type, InterfaceType::ShaftInBore);
}

#[test]
fn interfaces_are_numbered_from_the_start() {
    let a = part("a", vec![face(0, "planar", [0, 0, 0], [0, 0, S], None)]);
    let b = part(
        "b",
        vec![
            face(0, "planar", [0, 0, S], [0, 0, -S], None),
            face(1, "planar", [0, 0, S / 2], [0, 0, S], None),
        ],
    );
    let params = DetectionParams::default();
    let found = find_interfaces_between_parts(&a, &b, &params, 41);
    assert_eq!(found.len(), 2);
    assert_eq!(found[0].id, b"interface-42".to_vec());
    assert_eq!(found[0].interface_type, InterfaceType::FaceToFace);
    assert_eq!(found[1].id, b"interface-43".to_vec());
    assert_eq!(found[1].interface_type, InterfaceType::Unknown);
    assert_eq!(found[1].part_b_face_id, 1);
}

#[test]
fn part_in_two_interfaces_is_a_junction() {
    let middle = part("middle", vec![face(0, "planar", point(0.0, 0.0, 0.0), [0, 0, S], None)]);
    let above = part("above", vec![face(0, "planar", point(0.0, 0.0, 1.5), [0, 0, -S], None)]);
    let below = part("below", vec![face(0, "planar", point(0.0, 0.0, -1.5), [0, 0, -S], None)]);
    let result = detect_mating_interfaces(vec![above, middle, below], fixed(2.0), fixed(0.95));
    assert!(result.success);
    assert_eq!(result.total_interfaces, 2);
    assert_eq!(result.interfaces[0].id, b"interface-1".to_vec());
    assert_eq!(result.interfaces[0].part_a_id, b"above".to_vec());
    assert_eq!(result.interfaces[0].part_b_id, b"middle".to_vec());
    assert_eq!(result.interfaces[1].id, b"interface-2".to_vec());
    assert_eq!(result.interfaces[1].part_a_id, b"middle".to_vec());
    assert_eq!(result.interfaces[1].part_b_id, b"below".to_vec());
    assert_eq!(result.junction_parts, vec![b"middle".to_vec()]);
}

#[test]
fn junctions_are_named_once() {
    let twin_a = part("twin", vec![face(0, "planar", [0, 0, 0], [0, 0, S], None)]);
    let twin_b = part("twin", vec![face(0, "planar", [0, 0, S], [0, 0, -S], None)]);
    let parts = vec![twin_a, twin_b];
    let params = DetectionParams::default();
    let found = find_interfaces_between_parts(&parts[0], &parts[1], &params, 0);
    assert_eq!(found.len(), 1);
    assert_eq!(find_junction_parts(&parts, &found), vec![b"twin".to_vec()]);
    assert_eq!(find_junction_parts(&parts, &Vec::new()), Vec::<Vec<u8>>::new());
}

#[test]
fn faces_beyond_the_range_are_passed_over() {
    let far_face = face(0, "planar", [2_000_000_000_000, 0, 0], [0, 0, S], None);
    let far = part(
        "far",
        vec![far_face, face(1, "planar", point(0.0, 0.0, 0.5), [0, 0, -S], None)],
    );
    let near = part("near", vec![face(0, "planar", [0, 0, 0], [0, 0, S], None)]);
    let result = detect_mating_interfaces(vec![near, far], fixed(2.0), fixed(0.95));
    assert!(result.success);
    assert_eq!(result.error, None);
    assert_eq!(result.total_interfaces, 1);
    assert_eq!(result.interfaces[0].part_b_face_id, 1);
    assert_eq!(result.interfaces[0].interface_type, InterfaceType::FaceToFace);

    let mut stretched = part("stretched", vec![face(0, "planar", [0, 0, 0], [0, 0, -S], None)]);
    stretched.transform[0] = 2_000_000_000;
    assert!(!stretched.check_range());
    let near = part("near", vec![face(0, "planar", [0, 0, 0], [0, 0, S], None)]);
    let result = detect_mating_interfaces(vec![near, stretched], fixed(2.0), fixed(0.95));
    assert!(result.success);
    assert_eq!(result.total_interfaces, 0);
    assert!(part("fine", Vec::new()).check_range());
}

#[test]
fn alignment_is_the_rounded_scalar_product() {
    assert_eq!(normal_alignment(&[0, 0, S], &[0, 0, -S]), -S);
    assert_eq!(normal_alignment(&[600_000, 800_000, 0], &[S, 0, 0]), 600_000);
    assert_eq!(normal_alignment(&[1, 0, 0], &[500_000, 0, 0]), 1);
    assert_eq!(normal_alignment(&[1, 0, 0], &[499_999, 0, 0]), 0);
    assert_eq!(normal_alignment(&[-1, 0, 0], &[500_001, 0, 0]), -1);
}
