use rge_core::operators::{
    extrude_bottom_perimeter_vertex_pair, extrude_top_perimeter_vertex_pair, BooleanMode,
    BooleanOp, EdgeKind, OpError, OpKind, Polygon2D, Polygon2DError, Polyline3D, Polyline3DError,
};

fn bits2(points: &[[f32; 2]]) -> Vec<(u32, u32)> {
    points.iter().map(|p| (p[0].to_bits(), p[1].to_bits())).collect()
}

fn bits3(points: &[[f32; 3]]) -> Vec<(u32, u32, u32)> {
    points.iter().map(|p| (p[0].to_bits(), p[1].to_bits(), p[2].to_bits())).collect()
}

#[test]
fn boolean_boolean_op_arity_is_2() {
    for mode in [BooleanMode::Union, BooleanMode::Intersection, BooleanMode::Difference] {
        let op = BooleanOp::new(mode);
        assert_eq!(op.arity(), 2);
    }
}

#[test]
fn tests_boolean_op_arity_is_2() {
    for mode in [BooleanMode::Union, BooleanMode::Intersection, BooleanMode::Difference] {
        let op = BooleanOp::new(mode);
        assert_eq!(op.arity(), 2);
    }
}

#[test]
#[allow(unreachable_patterns)]
fn boolean_mode_non_exhaustive_pattern_match_compiles() {
    let mode = BooleanMode::Union;
    let _label = match mode {
        BooleanMode::Union => "union",
        BooleanMode::Intersection => "intersection",
        BooleanMode::Difference => "difference",
        _ => "future-variant",
    };
}

#[test]
fn boolean_boolean_op_structural_hash_differs_per_mode() {
    let u = BooleanOp::union().structural_hash();
    let i = BooleanOp::intersection().structural_hash();
    let d = BooleanOp::difference().structural_hash();
    assert_ne!(u, i);
    assert_ne!(u, d);
    assert_ne!(i, d);
}

#[test]
fn tests_boolean_op_structural_hash_differs_per_mode() {
    let u = BooleanOp::new(BooleanMode::Union).structural_hash();
    let i = BooleanOp::new(BooleanMode::Intersection).structural_hash();
    let d = BooleanOp::new(BooleanMode::Difference).structural_hash();
    assert_ne!(u, i);
    assert_ne!(u, d);
    assert_ne!(i, d);
}

#[test]
fn boolean_boolean_op_structural_hash_deterministic() {
    assert_eq!(BooleanOp::union().structural_hash(), BooleanOp::union().structural_hash());
}

#[test]
fn tests_boolean_op_structural_hash_deterministic() {
    let a = BooleanOp::new(BooleanMode::Difference).structural_hash();
    let b = BooleanOp::new(BooleanMode::Difference).structural_hash();
    assert_eq!(a, b);
}

#[test]
fn boolean_structural_hash_is_blake3_of_tagged_mode() {
    let expect = *blake3::hash(b"boolean:\x01").as_bytes();
    assert_eq!(BooleanOp::intersection().structural_hash(), expect);
    assert_eq!(BooleanMode::Union.discriminant(), 0);
    assert_eq!(BooleanMode::Intersection.discriminant(), 1);
    assert_eq!(BooleanMode::Difference.discriminant(), 2);
}

#[test]
fn boolean_boolean_evaluate_rejects_wrong_arity() {
    let op = BooleanOp::union();
    match op.check_inputs(1) {
        Err(OpError::WrongArity { expected, got }) => {
            assert_eq!(expected, 2);
            assert_eq!(got, 1);
        }
        other => panic!("unexpected {other:?}"),
    }
    assert!(op.check_inputs(2).is_ok());
}

#[test]
fn operator_node_dispatches_boolean() {
    let op = BooleanOp::union();
    assert_eq!(op.op_kind(), OpKind::Boolean);
    assert_eq!(op.arity(), 2);
    let err = op.check_inputs(0).unwrap_err();
    assert!(matches!(err, OpError::WrongArity { expected: 2, got: 0 }));
}

#[test]
fn op_error_messages() {
    assert_eq!(
        OpError::WrongArity { expected: 2, got: 0 }.message(),
        "wrong arity: expected 2, got 0"
    );
    assert_eq!(OpError::EmptyResult.message(), "operator produced empty result");
    assert_eq!(OpError::InvalidParameter("len".into()).message(), "invalid parameter: len");
    assert_eq!(EdgeKind::Input(1), EdgeKind::Input(1));
    assert_ne!(EdgeKind::Input(0), EdgeKind::Input(1));
}

#[test]
fn extrude_vertex_pair_helpers_match_extrude_evaluate_layout() {
    assert_eq!(extrude_bottom_perimeter_vertex_pair(0, 4), (0, 1));
    assert_eq!(extrude_bottom_perimeter_vertex_pair(1, 4), (1, 2));
    assert_eq!(extrude_bottom_perimeter_vertex_pair(2, 4), (2, 3));
    assert_eq!(extrude_bottom_perimeter_vertex_pair(3, 4), (3, 0));
    assert_eq!(extrude_top_perimeter_vertex_pair(0, 4), (4, 5));
    assert_eq!(extrude_top_perimeter_vertex_pair(1, 4), (5, 6));
    assert_eq!(extrude_top_perimeter_vertex_pair(2, 4), (6, 7));
    assert_eq!(extrude_top_perimeter_vertex_pair(3, 4), (7, 4));

    assert_eq!(extrude_bottom_perimeter_vertex_pair(0, 3), (0, 1));
    assert_eq!(extrude_top_perimeter_vertex_pair(2, 3), (5, 3));

    assert_eq!(extrude_bottom_perimeter_vertex_pair(4, 5), (4, 0));
    assert_eq!(extrude_top_perimeter_vertex_pair(0, 5), (5, 6));
}

#[test]
fn polygon2d_rejects_too_few_points() {
    let err = Polygon2D::new(bits2(&[[0.0, 0.0], [1.0, 0.0]])).unwrap_err();
    assert_eq!(err, Polygon2DError::TooFewPoints { got: 2 });
}

#[test]
fn polygon2d_rejects_non_finite() {
    let err = Polygon2D::new(bits2(&[[0.0, 0.0], [f32::NAN, 0.0], [1.0, 1.0]])).unwrap_err();
    assert_eq!(err, Polygon2DError::NonFiniteCoordinate { index: 1 });
    let err = Polygon2D::new(bits2(&[[0.0, 0.0], [1.0, 0.0], [f32::INFINITY, 1.0]])).unwrap_err();
    assert_eq!(err, Polygon2DError::NonFiniteCoordinate { index: 2 });
}

#[test]
fn polygon2d_rejects_coincident_adjacent_points() {
    let err = Polygon2D::new(bits2(&[[0.0, 0.0], [0.0, 0.0], [1.0, 0.0], [1.0, 1.0]])).unwrap_err();
    assert_eq!(err, Polygon2DError::DegenerateEdge { index: 1 });
}

#[test]
fn polygon2d_rejects_coincident_closing_edge() {
    let err = Polygon2D::new(bits2(&[[0.0, 0.0], [1.0, 0.0], [1.0, 1.0], [0.0, 0.0]])).unwrap_err();
    assert_eq!(err, Polygon2DError::DegenerateEdge { index: 0 });
}

#[test]
fn polygon2d_len_and_is_empty() {
    let p = Polygon2D::new(bits2(&[[0.0, 0.0], [1.0, 0.0], [1.0, 1.0], [0.0, 1.0]])).expect("square");
    assert_eq!(p.len(), 4);
    assert!(!p.is_empty());
    assert_eq!(p.points()[2], (1.0f32.to_bits(), 1.0f32.to_bits()));
}

#[test]
fn polygon2d_signed_zeros_coincide() {
    // Points compare as floats do: -0.0 == 0.0, so this edge has zero length.
    let err = Polygon2D::new(bits2(&[[0.0, 0.0], [-0.0, 0.0], [1.0, 0.0], [1.0, 1.0]])).unwrap_err();
    assert_eq!(err, Polygon2DError::DegenerateEdge { index: 1 });
}

#[test]
fn polyline_signed_zeros_coincide() {
    let err = Polyline3D::new(bits3(&[[0.0, 0.0, -0.0], [-0.0, 0.0, 0.0]])).unwrap_err();
    assert_eq!(err, Polyline3DError::DegenerateSegment { index: 1 });
}

#[test]
fn polyline_new_rejects_too_few_points() {
    let err = Polyline3D::new(bits3(&[[0.0, 0.0, 0.0]])).expect_err("too few");
    assert_eq!(err, Polyline3DError::TooFewPoints { got: 1 });
}

#[test]
fn polyline_new_rejects_non_finite_coordinate() {
    let err = Polyline3D::new(bits3(&[[0.0, 0.0, 0.0], [f32::NAN, 0.0, 1.0]])).expect_err("nan rejected");
    assert_eq!(err, Polyline3DError::NonFiniteCoordinate { index: 1 });
}

#[test]
fn polyline_new_rejects_coincident_adjacent_points() {
    let err = Polyline3D::new(bits3(&[[0.0, 0.0, 0.0], [0.0, 0.0, 0.0]])).expect_err("zero-length");
    assert_eq!(err, Polyline3DError::DegenerateSegment { index: 1 });
}

#[test]
fn polyline_round_trip_via_points() {
    let pts = bits3(&[[0.0, 0.0, 0.0], [0.0, 0.0, 1.0], [0.5, 0.0, 2.0]]);
    let path = Polyline3D::new(pts.clone()).expect("valid");
    assert_eq!(path.points(), pts.as_slice());
    assert_eq!(path.len(), 3);
    assert!(!path.is_empty());
}

#[test]
fn polyline_closing_segment_is_not_checked() {
    // An open path may end where it started.
    let path = Polyline3D::new(bits3(&[[0.0, 0.0, 0.0], [1.0, 0.0, 0.0], [0.0, 0.0, 0.0]]));
    assert!(path.is_ok());
}

#[test]
fn boolean_output_is_labeled_returns_true_when_any_input_labeled() {
    let op = BooleanOp::union();
    assert!(op.output_is_labeled(&[true, false]));
    assert!(op.output_is_labeled(&[false, true]));
    assert!(op.output_is_labeled(&[true, true]));
}

#[test]
fn boolean_output_is_labeled_returns_false_when_all_inputs_unlabeled() {
    let op = BooleanOp::union();
    assert!(!op.output_is_labeled(&[false, false]));
}
