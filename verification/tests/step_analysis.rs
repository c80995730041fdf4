use stackup_core::fixed::scaled_quotient;
use stackup_core::step_analysis::analyze_step_content;
use stackup_core::step_analysis::face_type_by_place;
use stackup_core::step_analysis::MarkerType;
use stackup_core::step_analysis::FeatureInfo;
use stackup_core::step_analysis::TopologyInfo;
use stackup_core::text::count_words;
use stackup_core::text::has_word;

#[test]
fn analysis_counts_the_kinds_of_records() {
    let text = "ISO-10303-21;
#1=MANIFOLD_SOLID_BREP('',#2);
#2=CLOSED_SHELL('',(#3,#4,#5));
#3=ADVANCED_FACE('',(),#6,.T.);
#4=ADVANCED_FACE('',(),#7,.T.);
#5=FACE_SURFACE('',(),#8,.T.);
#6=PLANE('',#9);
#7=CYLINDRICAL_SURFACE('',#9,1.);
#8=B_SPLINE_SURFACE_WITH_KNOTS('',3,3);
#10=TOROIDAL_SURFACE('',#9,2.,1.);
#11=SPHERICAL_SURFACE('',#9,2.);
#12=CONICAL_SURFACE('',#9,2.,0.5);
#13=EDGE_CURVE('',#14,#15,#16,.T.);
#14=VERTEX_POINT('',#17);
#15=VERTEX_POINT('',#18);
#19=OPEN_SHELL('',());
#20=PLANE ('',#9);
";
    let result = analyze_step_content(text.to_string(), "model.step".to_string());
    assert!(result.success);
    assert_eq!(result.error, None);
    assert_eq!(result.filename, Some("model.step".to_string()));
    assert!(result.bounding_box.is_none());
    assert!(result.volume_estimate.is_none());
    assert!(result.surface_area_estimate.is_none());
    assert_eq!(
        result.topology,
        Some(TopologyInfo {
            num_solids: 1,
            num_shells: 2,
            num_faces: 3,
            num_edges: 1,
            num_vertices: 2,
        })
    );
    assert_eq!(
        result.features,
        Some(FeatureInfo { cylindrical_faces: 1, planar_faces: 1, curved_faces: 4 })
    );
}

#[test]
fn analysis_counts_at_least_one_solid_and_one_shell() {
    let result = analyze_step_content("STEP".to_string(), "bare.step".to_string());
    assert!(result.success);
    let topology = result.topology.unwrap();
    assert_eq!(topology.num_solids, 1);
    assert_eq!(topology.num_shells, 1);
    assert_eq!(topology.num_faces, 0);
    assert_eq!(
        result.features,
        Some(FeatureInfo { cylindrical_faces: 0, planar_faces: 0, curved_faces: 0 })
    );
}

#[test]
fn analysis_takes_the_larger_count_of_solids() {
    let text = "STEP MANIFOLD_SOLID_BREP BREP_WITH_VOIDS BREP_WITH_VOIDS BREP_WITH_VOIDS";
    let result = analyze_step_content(text.to_string(), "voids.step".to_string());
    assert_eq!(result.topology.unwrap().num_solids, 3);
}

#[test]
fn analysis_refuses_text_without_a_marker() {
    let result = analyze_step_content("#1=PLANE('',#2);".to_string(), "plain.txt".to_string());
    assert!(!result.success);
    assert_eq!(result.error, Some("Invalid STEP file format".to_string()));
    assert_eq!(result.filename, Some("plain.txt".to_string()));
    assert!(result.topology.is_none());
    assert!(result.features.is_none());
}

#[test]
fn words_are_counted_without_overlap() {
    assert_eq!(count_words(b"aaaa", b"aa"), 2);
    assert_eq!(count_words(b"aaa", b"aa"), 1);
    assert_eq!(count_words(b"abcabc", b"abc"), 2);
    assert_eq!(count_words(b"ab", b"abc"), 0);
    assert_eq!(count_words(b"", b"a"), 0);
    assert!(has_word(b"xxSTEPxx", b"STEP"));
    assert!(has_word(b"STEP", b"STEP"));
    assert!(has_word(b"STEP", b""));
    assert!(!has_word(b"STE", b"STEP"));
    assert!(!has_word(b"S-T-E-P", b"STEP"));
}

#[test]
fn markers_stand_for_cylinders_first_then_curves() {
    let features = FeatureInfo { cylindrical_faces: 2, planar_faces: 9, curved_faces: 1 };
    assert_eq!(face_type_by_place(0, &features), MarkerType::Cylindrical);
    assert_eq!(face_type_by_place(1, &features), MarkerType::Cylindrical);
    assert_eq!(face_type_by_place(2, &features), MarkerType::Curved);
    assert_eq!(face_type_by_place(3, &features), MarkerType::Planar);
    assert_eq!(face_type_by_place(usize::MAX, &features), MarkerType::Planar);
    let many = FeatureInfo { cylindrical_faces: usize::MAX, planar_faces: 0, curved_faces: 5 };
    assert_eq!(face_type_by_place(usize::MAX - 1, &many), MarkerType::Cylindrical);
    assert_eq!(face_type_by_place(usize::MAX, &many), MarkerType::Curved);
    assert_eq!(MarkerType::Cylindrical.name(), "cylindrical");
    assert_eq!(MarkerType::Curved.name(), "curved");
    assert_eq!(MarkerType::Planar.name(), "planar");
}

#[test]
fn scaled_quotient_is_found_digit_by_digit() {
    assert_eq!(scaled_quotient(1, 14, 3, 100_000_000_000_000), Some(33_333_333_333_333));
    assert_eq!(scaled_quotient(2, 0, 3, 10), Some(0));
    assert_eq!(scaled_quotient(7, 3, 7, 1000), Some(1000));
    assert_eq!(scaled_quotient(7, 3, 7, 999), None);
    assert_eq!(
        scaled_quotient(u128::MAX, 0, 1, 0x1999_9999_9999_9999_9999_9999_9999_9998),
        None
    );
    assert_eq!(
        scaled_quotient(
            4_000_000_000_000_000_000_000_000_000_000_000_000,
            12,
            4_000_000_000_000_000_000_000_000_000_000_000_000,
            1_000_000_000_000
        ),
        Some(1_000_000_000_000)
    );
}
