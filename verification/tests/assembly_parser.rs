use stackup_core::assembly_parser::calculate_bounding_box;
use stackup_core::assembly_parser::classify_surface;
use stackup_core::assembly_parser::extract_face_geometry;
use stackup_core::assembly_parser::extract_faces_for_product;
use stackup_core::assembly_parser::extract_product_definitions;
use stackup_core::assembly_parser::extract_product_name;
use stackup_core::assembly_parser::extract_transforms;
use stackup_core::assembly_parser::find_axis_placement;
use stackup_core::assembly_parser::numbered_count;
use stackup_core::assembly_parser::numbered_name;
use stackup_core::assembly_parser::parse_assembly_step;
use stackup_core::assembly_parser::parse_axis_placement;
use stackup_core::assembly_parser::parse_cylindrical_surface;
use stackup_core::assembly_parser::parse_direction;
use stackup_core::assembly_parser::FaceType;
use stackup_core::assembly_parser::ParsedFace;
use stackup_core::decimal::parse_cartesian_point;
use stackup_core::decimal::parse_trailing_number;
use stackup_core::geometry::cross;
use stackup_core::geometry::identity_matrix;
use stackup_core::geometry::normalize;
use stackup_core::step_entities::extract_quoted_name;
use stackup_core::step_entities::EntityIndex;
use stackup_core::step_entities::StepEntity;
use stackup_core::step_entities::parse_refs;
use stackup_core::step_entities::parse_step_entities;

const ASSEMBLY: &str = "ISO-10303-21;
HEADER;
FILE_DESCRIPTION(('two parts'),'2;1');
ENDSEC;
DATA;
#1=CARTESIAN_POINT('',(1.5,-2.3,4.0));
#2=DIRECTION('',(0.,0.,1.));
#3=DIRECTION('',(1.,0.,0.));
#4=AXIS2_PLACEMENT_3D('',#1,#2,#3);
#5=PLANE('',#4);
#6=ADVANCED_FACE('',(#20),#5,.T.);
#7=CARTESIAN_POINT('',(10.,0.,0.));
#8=AXIS2_PLACEMENT_3D('',#7,#2,#3);
#9=CYLINDRICAL_SURFACE('',#8,2.5);
#10=ADVANCED_FACE('',(#21),#9,.F.);
#11=PRODUCT('Bracket','Bracket body','',(#30));
#12=PRODUCT_DEFINITION_FORMATION('','',#11);
#13=PRODUCT_DEFINITION('design','',#12,#31);
#14 = PRODUCT_DEFINITION ( 'design', '',
   #99, #31 ) ;
#15=NEXT_ASSEMBLY_USAGE_OCCURRENCE('1','','',#13,#14,$);
ENDSEC;
END-ISO-10303-21;
";

fn in_units(x: i64) -> f64 {
    x as f64 / 1e6
}

fn face(center: [i64; 3], radius: Option<i64>) -> ParsedFace {
    ParsedFace {
        id: 0,
        face_type: FaceType::Planar,
        normal: [0, 0, 1_000_000],
        center,
        area: 0,
        radius,
        axis: None,
        step_entity_id: None,
    }
}

#[test]
fn test_parse_cartesian_point() {
    let data = "'point',(1.5, -2.3, 4.0)";
    let result = parse_cartesian_point(data.as_bytes());
    assert!(result.is_some());
    let [x, y, z] = result.unwrap();
    assert!((in_units(x) - 1.5).abs() < 1e-6);
    assert!((in_units(y) - (-2.3)).abs() < 1e-6);
    assert!((in_units(z) - 4.0).abs() < 1e-6);
}

#[test]
fn test_identity_matrix() {
    let m = identity_matrix();
    assert_eq!(in_units(m[0]), 1.0);
    assert_eq!(in_units(m[5]), 1.0);
    assert_eq!(in_units(m[10]), 1.0);
    assert_eq!(in_units(m[15]), 1.0);
}

#[test]
fn identity_matrix_is_zero_off_the_diagonal() {
    let m = identity_matrix();
    assert_eq!(m, [1_000_000, 0, 0, 0, 0, 1_000_000, 0, 0, 0, 0, 1_000_000, 0, 0, 0, 0, 1_000_000]);
}

#[test]
fn empty_text_is_refused() {
    let result = parse_assembly_step(String::new(), "empty.step".to_string());
    assert!(!result.success);
    assert_eq!(result.error, Some("Invalid STEP file format".to_string()));
    assert_eq!(result.filename, Some("empty.step".to_string()));
    assert!(result.parts.is_empty());
    assert_eq!(result.total_parts, 0);
    assert!(!result.has_sub_assemblies);
}

#[test]
fn text_without_a_marker_is_refused() {
    let result = parse_assembly_step(
        "#1=PRODUCT_DEFINITION('a','',#2,#3);".to_string(),
        "plain.txt".to_string(),
    );
    assert!(!result.success);
    assert!(result.parts.is_empty());
}

#[test]
fn either_marker_is_enough() {
    assert!(parse_assembly_step("a STEP file".to_string(), "a".to_string()).success);
    assert!(parse_assembly_step("ISO-10303-21;".to_string(), "b".to_string()).success);
    assert!(!parse_assembly_step("step iso-10303-21".to_string(), "c".to_string()).success);
}

#[test]
fn text_without_products_has_no_parts() {
    let text = "ISO-10303-21;\nDATA;\n#1=CARTESIAN_POINT('',(0.,0.,0.));\n#2=ADVANCED_FACE('',(),#1,.T.);\nENDSEC;\n";
    let result = parse_assembly_step(text.to_string(), "none.step".to_string());
    assert!(result.success);
    assert_eq!(result.error, None);
    assert_eq!(result.total_parts, 0);
    assert!(result.parts.is_empty());
    assert!(!result.has_sub_assemblies);
}

#[test]
fn cartesian_point_record_gives_its_point() {
    let index = parse_step_entities("#1=CARTESIAN_POINT('',(1.5,-2.3,4.0));".as_bytes());
    assert_eq!(index.len(), 1);
    let entity = index.get(1).unwrap();
    assert_eq!(entity.id, 1);
    assert_eq!(entity.entity_type, b"CARTESIAN_POINT".to_vec());
    assert_eq!(entity.data, b"'',(1.5,-2.3,4.0)".to_vec());
    assert_eq!(parse_cartesian_point(&entity.data), Some([1_500_000, -2_300_000, 4_000_000]));
}

#[test]
fn assembly_has_two_parts_with_every_face() {
    let result = parse_assembly_step(ASSEMBLY.to_string(), "pair.step".to_string());
    assert!(result.success);
    assert_eq!(result.error, None);
    assert_eq!(result.filename, Some("pair.step".to_string()));
    assert!(result.has_sub_assemblies);
    assert_eq!(result.total_parts, 2);
    assert_eq!(result.parts.len(), 2);

    let first = &result.parts[0];
    assert_eq!(first.id, b"part-0".to_vec());
    assert_eq!(first.name, b"Bracket".to_vec());
    assert_eq!(first.step_entity_id, 13);
    assert_eq!(first.product_definition_id, Some(13));
    assert_eq!(first.transform, identity_matrix());

    let second = &result.parts[1];
    assert_eq!(second.id, b"part-1".to_vec());
    assert_eq!(second.name, b"Part_14".to_vec());
    assert_eq!(second.step_entity_id, 14);
    assert_eq!(second.transform, identity_matrix());

    for part in &result.parts {
        assert_eq!(part.faces.len(), 2);
        let plane = &part.faces[0];
        assert_eq!(plane.id, 0);
        assert_eq!(plane.face_type, FaceType::Planar);
        assert_eq!(plane.center, [1_500_000, -2_300_000, 4_000_000]);
        assert_eq!(plane.normal, [0, 0, 1_000_000]);
        assert_eq!(plane.axis, Some([0, 0, 1_000_000]));
        assert_eq!(plane.radius, None);
        assert_eq!(plane.area, 0);
        assert_eq!(plane.step_entity_id, Some(6));
        let cylinder = &part.faces[1];
        assert_eq!(cylinder.id, 1);
        assert_eq!(cylinder.face_type, FaceType::Cylindrical);
        assert_eq!(cylinder.center, [10_000_000, 0, 0]);
        assert_eq!(cylinder.normal, [1_000_000, 0, 0]);
        assert_eq!(cylinder.axis, Some([0, 0, 1_000_000]));
        assert_eq!(cylinder.radius, Some(2_500_000));
        assert_eq!(cylinder.step_entity_id, Some(10));
        let bounds = part.bounding_box.unwrap();
        assert_eq!(bounds.min, [1_500_000, -2_500_000, -2_500_000]);
        assert_eq!(bounds.max, [12_500_000, 2_500_000, 4_000_000]);
        assert_eq!(bounds.dimensions, [11_000_000, 5_000_000, 6_500_000]);
    }
}

#[test]
fn reading_twice_gives_the_same_records() {
    let first = parse_step_entities(ASSEMBLY.as_bytes());
    let second = parse_step_entities(ASSEMBLY.as_bytes());
    assert_eq!(first.len(), 15);
    assert_eq!(first.len(), second.len());
    for j in 0..first.len() {
        let a = first.entity(j);
        let b = second.entity(j);
        assert_eq!(a.id, b.id);
        assert_eq!(a.entity_type, b.entity_type);
        assert_eq!(a.data, b.data);
        assert_eq!(first.is_current(j), second.is_current(j));
        let found = second.get(a.id).unwrap();
        assert_eq!(found.data, first.get(a.id).unwrap().data);
    }
}

#[test]
fn records_may_be_spread_over_lines() {
    let index = parse_step_entities(ASSEMBLY.as_bytes());
    let entity = index.get(14).unwrap();
    assert_eq!(entity.entity_type, b"PRODUCT_DEFINITION".to_vec());
    assert_eq!(entity.data, b" 'design', '',\n   #99, #31 ".to_vec());
    assert!(index.get(16).is_none());
    assert!(index.get(99).is_none());
}

#[test]
fn header_lines_are_no_records() {
    let index = parse_step_entities(
        "HEADER;\nFILE_NAME('a.step');\nENDSEC;\n/* #7=NOTE */\n#8=A_B(1);\n#9=lower(2);\n#=C(3);\n#10 D(4);\n#11=E(5)x;\n#12=F(6)".as_bytes(),
    );
    assert_eq!(index.len(), 1);
    assert_eq!(index.entity(0).id, 8);
    assert_eq!(index.entity(0).entity_type, b"A_B".to_vec());
    assert_eq!(index.entity(0).data, b"1".to_vec());
}

#[test]
fn payload_ends_at_the_last_bracket_before_the_semicolon() {
    let index = parse_step_entities("#1=A((1,(2)),'x') \t;#2=B();#3=C(a;b);".as_bytes());
    assert_eq!(index.len(), 2);
    assert_eq!(index.entity(0).data, b"(1,(2)),'x'".to_vec());
    assert_eq!(index.entity(1).id, 2);
    assert_eq!(index.entity(1).data, Vec::<u8>::new());
}

#[test]
fn last_record_with_a_number_is_the_one_it_names() {
    let index = parse_step_entities("#5=A(1);#6=B(2);#5=C(3);".as_bytes());
    assert_eq!(index.len(), 3);
    assert_eq!(index.get(5).unwrap().entity_type, b"C".to_vec());
    assert!(!index.is_current(0));
    assert!(index.is_current(1));
    assert!(index.is_current(2));
}

#[test]
fn record_with_a_number_beyond_the_range_is_passed_over() {
    let index =
        parse_step_entities("#9223372036854775808=A(1);#9223372036854775807=B(2);#007=C(3);".as_bytes());
    assert_eq!(index.len(), 2);
    assert_eq!(index.entity(0).id, 9223372036854775807);
    assert_eq!(index.entity(1).id, 7);
}

#[test]
fn references_are_read_in_order() {
    assert_eq!(parse_refs("'',(#20,#21),#5,.T.".as_bytes()), vec![20, 21, 5]);
    assert_eq!(parse_refs("#,#a,# 1,#12#13".as_bytes()), vec![12, 13]);
    assert_eq!(parse_refs("#99999999999999999999,#4".as_bytes()), vec![4]);
    assert_eq!(parse_refs("".as_bytes()), Vec::<i64>::new());
}

#[test]
fn quoted_name_is_the_first_quoted_text() {
    assert_eq!(extract_quoted_name("'Bracket','x'".as_bytes()), Some(b"Bracket".to_vec()));
    assert_eq!(extract_quoted_name("#1,'',#2".as_bytes()), Some(Vec::new()));
    assert_eq!(extract_quoted_name("#1,'open".as_bytes()), None);
    assert_eq!(extract_quoted_name("#1,#2".as_bytes()), None);
}

#[test]
fn point_literals_take_signs_points_and_exponents() {
    assert_eq!(
        parse_cartesian_point("(1e3, 2.5E-1, -0.0000019)".as_bytes()),
        Some([1_000_000_000, 250_000, -1])
    );
    assert_eq!(
        parse_cartesian_point("( +3.25 ,\n7. , 12 )".as_bytes()),
        Some([3_250_000, 7_000_000, 12_000_000])
    );
    assert_eq!(
        parse_cartesian_point("(0e99999999999999999999999, 1e-99999999999999999999999, 1.5e+0)".as_bytes()),
        Some([0, 0, 1_500_000])
    );
    assert_eq!(
        parse_cartesian_point("(000001.0000005, 1e6, -1E6)".as_bytes()),
        Some([1_000_000, 1_000_000_000_000, -1_000_000_000_000])
    );
}

#[test]
fn point_is_the_first_that_is_well_formed() {
    assert_eq!(
        parse_cartesian_point("'x',(1,2),(a,b,c),(1.,2.,3.),(4,5,6)".as_bytes()),
        Some([1_000_000, 2_000_000, 3_000_000])
    );
    assert_eq!(parse_cartesian_point("(1,2)".as_bytes()), None);
    assert_eq!(parse_cartesian_point("(1,2,3".as_bytes()), None);
    assert_eq!(parse_cartesian_point("(.5,1,2)".as_bytes()), None);
    assert_eq!(parse_cartesian_point("(1e,2,3)".as_bytes()), None);
    assert_eq!(parse_cartesian_point("".as_bytes()), None);
}

#[test]
fn point_beyond_the_range_is_none() {
    assert_eq!(parse_cartesian_point("(1e7,0,0)".as_bytes()), None);
    assert_eq!(parse_cartesian_point("(0,1000000.000001,0)".as_bytes()), None);
    assert_eq!(parse_cartesian_point("(0,0,1e99999999999999999999999)".as_bytes()), None);
}

#[test]
fn trailing_number_is_the_last_literal() {
    assert_eq!(parse_trailing_number("'',#8,2.5".as_bytes()), Some(2_500_000));
    assert_eq!(parse_trailing_number("'',#8".as_bytes()), Some(8_000_000));
    assert_eq!(parse_trailing_number("'',#8,-2.5e1 ".as_bytes()), Some(25_000_000));
    assert_eq!(parse_trailing_number("1.5e".as_bytes()), Some(1_500_000));
    assert_eq!(parse_trailing_number("7.e2x".as_bytes()), Some(700_000_000));
    assert_eq!(parse_trailing_number("'name'".as_bytes()), None);
    assert_eq!(parse_trailing_number("1e9".as_bytes()), None);
}

#[test]
fn direction_has_length_one() {
    assert_eq!(parse_direction("(0,0,5)".as_bytes()), Some([0, 0, 1_000_000]));
    assert_eq!(parse_direction("(3,4,0)".as_bytes()), Some([600_000, 800_000, 0]));
    assert_eq!(parse_direction("(-1,1,1)".as_bytes()), Some([-577_350, 577_350, 577_350]));
    assert_eq!(parse_direction("(0,0,0)".as_bytes()), Some([0, 0, 0]));
    assert_eq!(parse_direction("(0.000,0e5,-0)".as_bytes()), Some([0, 0, 0]));
    assert_eq!(parse_direction("none".as_bytes()), None);
}

#[test]
fn short_and_long_directions_have_length_one() {
    let s = 1_000_000;
    assert_eq!(parse_direction("(1e-7,0,0)".as_bytes()), Some([s, 0, 0]));
    assert_eq!(parse_direction("(0,-0.0000001,0)".as_bytes()), Some([0, -s, 0]));
    assert_eq!(parse_direction("(-2e-9,0,1e-9)".as_bytes()), Some([-894_427, 0, 447_214]));
    assert_eq!(
        parse_direction("(0.6e-10,0.6e-10,0.6e-10)".as_bytes()),
        Some([577_350, 577_350, 577_350])
    );
    assert_eq!(parse_direction("(1.0000000000001e-10,0,0)".as_bytes()), Some([s, 0, 0]));
    assert_eq!(parse_direction("(1e7,0,0)".as_bytes()), Some([s, 0, 0]));
    assert_eq!(parse_direction("(3e300,4E300,0)".as_bytes()), Some([600_000, 800_000, 0]));
    assert_eq!(parse_direction("(1,1e-30,0)".as_bytes()), Some([s, 0, 0]));
    assert_eq!(
        parse_direction("(1e99999999999999999999,-1e99999999999999999999,0)".as_bytes()),
        Some([707_107, -707_107, 0])
    );
    assert_eq!(
        parse_direction("(123456789012345678901234567890,0,123456789012345678901234567890)".as_bytes()),
        Some([707_107, 0, 707_107])
    );
}

#[test]
fn directions_no_longer_than_the_threshold_keep_their_length() {
    assert_eq!(parse_direction("(1e-10,0,0)".as_bytes()), Some([0, 0, 0]));
    assert_eq!(parse_direction("(0.5e-10,0.5e-10,0.5e-10)".as_bytes()), Some([0, 0, 0]));
    assert_eq!(parse_direction("(9.99e-11,0,0)".as_bytes()), Some([0, 0, 0]));
    assert_eq!(parse_direction("(1e-11,0,0)".as_bytes()), Some([0, 0, 0]));
    assert_eq!(parse_direction("(1e-300,1e-300,0)".as_bytes()), Some([0, 0, 0]));
    assert_eq!(parse_direction("(1e-99999999999999999999,0,0)".as_bytes()), Some([0, 0, 0]));
}

#[test]
fn normalized_length_is_one_within_a_millionth() {
    let inputs: Vec<[i64; 3]> = vec![
        [1, 0, 0],
        [1, 1, 0],
        [1, 2, 3],
        [-7, 11, 13],
        [999_999, 1, 1],
        [1_000_000_000_000, 1_000_000_000_000, 1_000_000_000_000],
        [5_000_000_000_000, -3, 0],
    ];
    for v in inputs {
        let n = normalize(&v);
        let square: i128 = n.iter().map(|c| (*c as i128) * (*c as i128)).sum();
        assert!(square >= 999_999i128 * 999_999);
        assert!(square <= 1_000_001i128 * 1_000_001);
    }
}

#[test]
fn cross_product_of_the_axes() {
    let x = [1_000_000, 0, 0];
    let y = [0, 1_000_000, 0];
    let z = [0, 0, 1_000_000];
    assert_eq!(cross(&z, &x), y);
    assert_eq!(cross(&x, &y), z);
    assert_eq!(cross(&y, &x), [0, 0, -1_000_000]);
    assert_eq!(cross(&[600_000, 800_000, 0], &[0, 0, 1_000_000]), [800_000, -600_000, 0]);
    assert_eq!(cross(&[1, 0, 0], &[0, 1, 0]), [0, 0, 0]);
    assert_eq!(cross(&[1_000, 0, 0], &[0, 500, 0]), [0, 0, 1]);
}

#[test]
fn placement_has_the_axes_as_columns() {
    let text = "#1=CARTESIAN_POINT('',(1.,2.,3.));#2=DIRECTION('',(2.,0.,0.));#3=DIRECTION('',(0.,1.,0.));#4=AXIS2_PLACEMENT_3D('',#1,#2,#3);#5=AXIS2_PLACEMENT_3D('',#1);#6=AXIS2_PLACEMENT_3D('');#7=AXIS2_PLACEMENT_3D('',#40,#41,#42);";
    let index = parse_step_entities(text.as_bytes());
    let s = 1_000_000;
    assert_eq!(
        parse_axis_placement(&index, &index.get(4).unwrap().data),
        Some([0, s, 0, 0, 0, 0, s, 0, s, 0, 0, 0, s, 2 * s, 3 * s, s])
    );
    assert_eq!(
        parse_axis_placement(&index, &index.get(5).unwrap().data),
        Some([s, 0, 0, 0, 0, s, 0, 0, 0, 0, s, 0, s, 2 * s, 3 * s, s])
    );
    assert_eq!(parse_axis_placement(&index, &index.get(6).unwrap().data), Some(identity_matrix()));
    assert_eq!(parse_axis_placement(&index, &index.get(7).unwrap().data), Some(identity_matrix()));

    let transforms = extract_transforms(&index);
    assert_eq!(transforms.len(), 4);
    assert_eq!(transforms.get(&4), Some(&[0, s, 0, 0, 0, 0, s, 0, s, 0, 0, 0, s, 2 * s, 3 * s, s]));
    assert_eq!(transforms.get(&1), None);
}

#[test]
fn placement_axes_are_orthonormal_with_determinant_one() {
    let text = "#1=CARTESIAN_POINT('',(0.,0.,0.));#2=DIRECTION('',(0.,-3.,4.));#3=DIRECTION('',(1.,0.,0.));#4=AXIS2_PLACEMENT_3D('',#1,#2,#3);";
    let index = parse_step_entities(text.as_bytes());
    let m = parse_axis_placement(&index, &index.get(4).unwrap().data).unwrap();
    let x = [m[0] as i128, m[1] as i128, m[2] as i128];
    let y = [m[4] as i128, m[5] as i128, m[6] as i128];
    let z = [m[8] as i128, m[9] as i128, m[10] as i128];
    assert_eq!(z, [0, -600_000, 800_000]);
    assert_eq!(y, [0, 800_000, 600_000]);
    let dot = |a: [i128; 3], b: [i128; 3]| a[0] * b[0] + a[1] * b[1] + a[2] * b[2];
    assert_eq!(dot(x, y), 0);
    assert_eq!(dot(y, z), 0);
    assert_eq!(dot(x, z), 0);
    assert_eq!(dot(x, x), 1_000_000_000_000);
    assert_eq!(dot(y, y), 1_000_000_000_000);
    assert_eq!(dot(z, z), 1_000_000_000_000);
    let determinant = x[0] * (y[1] * z[2] - y[2] * z[1]) - x[1] * (y[0] * z[2] - y[2] * z[0])
        + x[2] * (y[0] * z[1] - y[1] * z[0]);
    assert_eq!(determinant, 1_000_000_000_000_000_000);
}

#[test]
fn product_name_is_found_over_two_hops() {
    let text = "#1=PRODUCT('Direct','',(#9));#2=PRODUCT_DEFINITION_FORMATION('',#1);#3=PRODUCT_DEFINITION_FORMATION('',#2);#4=PRODUCT(no name);";
    let index = parse_step_entities(text.as_bytes());
    assert_eq!(extract_product_name(&index, "'d',#1".as_bytes(), 1), Some(b"Direct".to_vec()));
    assert_eq!(extract_product_name(&index, "'d',#7,#2,#1".as_bytes(), 1), Some(b"Direct".to_vec()));
    assert_eq!(extract_product_name(&index, "'d',#3".as_bytes(), 1), None);
    assert_eq!(extract_product_name(&index, "'d',#3".as_bytes(), 2), Some(b"Direct".to_vec()));
    assert_eq!(extract_product_name(&index, "'d',#2".as_bytes(), 0), None);
    assert_eq!(extract_product_name(&index, "'d',#4,#1".as_bytes(), 1), None);
    assert_eq!(extract_product_name(&index, "'d'".as_bytes(), 1), None);
}

#[test]
fn product_definitions_are_named_after_their_products() {
    let index = parse_step_entities(ASSEMBLY.as_bytes());
    let products = extract_product_definitions(&index);
    assert_eq!(products.len(), 2);
    assert_eq!(products[0].id, 13);
    assert_eq!(products[0].name, b"Bracket".to_vec());
    assert_eq!(products[1].id, 14);
    assert_eq!(products[1].name, b"Part_14".to_vec());
}

#[test]
fn solids_stand_in_where_no_product_is_defined() {
    let text = "STEP;#1=MANIFOLD_SOLID_BREP('Block',#5);#2=MANIFOLD_SOLID_BREP(#6);#3=CLOSED_SHELL('',());";
    let index = parse_step_entities(text.as_bytes());
    let products = extract_product_definitions(&index);
    assert_eq!(products.len(), 2);
    assert_eq!(products[0].name, b"Block".to_vec());
    assert_eq!(products[1].id, 2);
    assert_eq!(products[1].name, b"Solid_2".to_vec());

    let result = parse_assembly_step(text.to_string(), "solids.step".to_string());
    assert_eq!(result.total_parts, 2);
    assert_eq!(result.parts[1].name, b"Solid_2".to_vec());
    assert!(result.parts[1].faces.is_empty());
    assert!(result.parts[1].bounding_box.is_none());
}

#[test]
fn surface_kinds_give_the_face_type() {
    assert_eq!(classify_surface(b"PLANE"), Some(FaceType::Planar));
    assert_eq!(classify_surface(b"CYLINDRICAL_SURFACE"), Some(FaceType::Cylindrical));
    assert_eq!(classify_surface(b"CONICAL_SURFACE"), Some(FaceType::Conical));
    assert_eq!(classify_surface(b"SPHERICAL_SURFACE"), Some(FaceType::Spherical));
    assert_eq!(classify_surface(b"TOROIDAL_SURFACE"), Some(FaceType::Toroidal));
    assert_eq!(classify_surface(b"B_SPLINE_SURFACE"), Some(FaceType::Freeform));
    assert_eq!(classify_surface(b"B_SPLINE_SURFACE_WITH_KNOTS"), Some(FaceType::Freeform));
    assert_eq!(classify_surface(b"FACE_BOUND"), None);
    assert_eq!(classify_surface(b"PLANES"), None);
}

#[test]
fn face_type_names() {
    assert_eq!(FaceType::from_name("planar"), FaceType::Planar);
    assert_eq!(FaceType::from_name("cylindrical"), FaceType::Cylindrical);
    assert_eq!(FaceType::from_name("conical"), FaceType::Conical);
    assert_eq!(FaceType::from_name("spherical"), FaceType::Spherical);
    assert_eq!(FaceType::from_name("toroidal"), FaceType::Toroidal);
    assert_eq!(FaceType::from_name("freeform"), FaceType::Freeform);
    assert_eq!(FaceType::from_name("other"), FaceType::Freeform);
    assert_eq!(FaceType::Planar.name(), "planar");
    assert_eq!(FaceType::Cylindrical.name(), "cylindrical");
    assert_eq!(FaceType::Conical.name(), "conical");
    assert_eq!(FaceType::Spherical.name(), "spherical");
    assert_eq!(FaceType::Toroidal.name(), "toroidal");
    assert_eq!(FaceType::Freeform.name(), "freeform");
}

#[test]
fn face_geometry_follows_the_first_surface() {
    let text = "#1=CARTESIAN_POINT('',(1.,1.,1.));#2=DIRECTION('',(0.,1.,0.));#4=AXIS2_PLACEMENT_3D('',#1,#2);#5=PLANE('',#4);#6=CONICAL_SURFACE('',#4,1.,0.5);#7=CYLINDRICAL_SURFACE('',#50,3.);#8=FACE_BOUND('',#9,.T.);#9=CYLINDRICAL_SURFACE('',#4,3.);#10=PLANE('',#60);";
    let index = parse_step_entities(text.as_bytes());
    let s = 1_000_000;

    let plane = extract_face_geometry(&index, "'',(#8),#5,#6,.T.".as_bytes());
    assert_eq!(plane.face_type, FaceType::Planar);
    assert_eq!(plane.center, [s, s, s]);
    assert_eq!(plane.normal, [0, s, 0]);
    assert_eq!(plane.axis, Some([0, s, 0]));
    assert_eq!(plane.radius, None);

    let cone = extract_face_geometry(&index, "'',(#8),#6,#5,.T.".as_bytes());
    assert_eq!(cone.face_type, FaceType::Conical);
    assert_eq!(cone.center, [0, 0, 0]);
    assert_eq!(cone.normal, [0, 0, s]);
    assert_eq!(cone.axis, None);
    assert_eq!(cone.radius, None);

    let loose = extract_face_geometry(&index, "'',#7".as_bytes());
    assert_eq!(loose.face_type, FaceType::Cylindrical);
    assert_eq!(loose.center, [0, 0, 0]);
    assert_eq!(loose.normal, [0, 0, s]);
    assert_eq!(loose.axis, None);
    assert_eq!(loose.radius, None);

    let cylinder = extract_face_geometry(&index, "'',#9".as_bytes());
    assert_eq!(cylinder.face_type, FaceType::Cylindrical);
    assert_eq!(cylinder.center, [s, s, s]);
    assert_eq!(cylinder.normal, [s, 0, 0]);
    assert_eq!(cylinder.axis, Some([0, s, 0]));
    assert_eq!(cylinder.radius, Some(3 * s));

    let bare = extract_face_geometry(&index, "'',#10".as_bytes());
    assert_eq!(bare.face_type, FaceType::Planar);
    assert_eq!(bare.center, [0, 0, 0]);
    assert_eq!(bare.normal, [0, 0, s]);
    assert_eq!(bare.axis, None);

    let unknown = extract_face_geometry(&index, "'',#8,#70".as_bytes());
    assert_eq!(unknown.face_type, FaceType::Freeform);
    assert_eq!(unknown.normal, [0, 0, s]);
    assert_eq!(unknown.center, [0, 0, 0]);
}

#[test]
fn axis_placement_and_cylinder_of_a_surface() {
    let text = "#1=CARTESIAN_POINT('',(1.,1.,1.));#2=DIRECTION('',(0.,1.,0.));#4=AXIS2_PLACEMENT_3D('',#1,#2);#5=AXIS2_PLACEMENT_3D('',#30,#1);";
    let index = parse_step_entities(text.as_bytes());
    let s = 1_000_000;
    assert_eq!(
        find_axis_placement(&index, "'',#1,#4,#5".as_bytes()),
        Some((Some([s, s, s]), Some([0, s, 0])))
    );
    assert_eq!(
        find_axis_placement(&index, "'',#5".as_bytes()),
        Some((None, Some([577_350, 577_350, 577_350])))
    );
    assert_eq!(find_axis_placement(&index, "'',#1,#2".as_bytes()), None);
    assert_eq!(
        parse_cylindrical_surface(&index, "'',#4,2.5".as_bytes()),
        Some(((Some([s, s, s]), Some([0, s, 0])), Some(2_500_000)))
    );
    assert_eq!(parse_cylindrical_surface(&index, "'',#1,2.5".as_bytes()), None);
}

#[test]
fn faces_are_numbered_in_the_order_of_the_text() {
    let text = "#1=FACE_SURFACE('',#9);#2=PLANE('');#3=ADVANCED_FACE('',#2);#1=ADVANCED_FACE('',#4);#4=SPHERICAL_SURFACE('',#5,1.);";
    let index = parse_step_entities(text.as_bytes());
    let faces = extract_faces_for_product(&index, 77);
    assert_eq!(faces.len(), 2);
    assert_eq!(faces[0].id, 0);
    assert_eq!(faces[0].step_entity_id, Some(3));
    assert_eq!(faces[0].face_type, FaceType::Planar);
    assert_eq!(faces[1].id, 1);
    assert_eq!(faces[1].step_entity_id, Some(1));
    assert_eq!(faces[1].face_type, FaceType::Spherical);
}

#[test]
fn bounding_box_widens_by_the_radius() {
    assert!(calculate_bounding_box(&Vec::new()).is_none());
    let one = calculate_bounding_box(&vec![face([1, 2, 3], None)]).unwrap();
    assert_eq!(one.min, [1, 2, 3]);
    assert_eq!(one.max, [1, 2, 3]);
    assert_eq!(one.dimensions, [0, 0, 0]);
    let faces = vec![face([10, 0, -5], Some(4)), face([0, 20, 0], None), face([3, 3, 3], Some(-9))];
    let bounds = calculate_bounding_box(&faces).unwrap();
    assert_eq!(bounds.min, [0, -4, -9]);
    assert_eq!(bounds.max, [14, 20, 3]);
    assert_eq!(bounds.dimensions, [14, 24, 12]);
}

#[test]
fn names_are_numbered_in_decimal() {
    assert_eq!(numbered_name(b"Part_", 14), b"Part_14".to_vec());
    assert_eq!(numbered_name(b"Part_", 0), b"Part_0".to_vec());
    assert_eq!(numbered_name(b"Part_", -5), b"Part_-5".to_vec());
    assert_eq!(numbered_name(b"", i64::MIN), b"-9223372036854775808".to_vec());
    assert_eq!(numbered_count(b"interface-", 120), b"interface-120".to_vec());
    assert_eq!(
        numbered_count(b"n", u128::MAX),
        b"n340282366920938463463374607431768211455".to_vec()
    );
}

#[test]
fn index_of_given_records_finds_the_last_of_a_number() {
    let records = vec![
        StepEntity { id: -3, entity_type: b"A".to_vec(), data: b"first".to_vec() },
        StepEntity { id: 8, entity_type: b"B".to_vec(), data: b"second".to_vec() },
        StepEntity { id: -3, entity_type: b"C".to_vec(), data: b"third".to_vec() },
    ];
    let index = EntityIndex::new(records);
    assert_eq!(index.len(), 3);
    assert_eq!(index.get(-3).unwrap().data, b"third".to_vec());
    assert_eq!(index.get(8).unwrap().entity_type, b"B".to_vec());
    assert!(index.get(0).is_none());
    assert!(!index.is_current(0));
    assert!(index.is_current(2));
}
