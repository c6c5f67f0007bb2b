use rge_core::box_edges::{cuboid_edge_corner_indices, cuboid_edge_tag_pairs, CuboidFaceTag};
use rge_core::chamfer::{chamfer_check_inputs, chamfer_indices, chamfer_output_is_labeled};
use rge_core::ring_mesh::extrude_indices;
use rge_core::mesh::MeshTopology;
use rge_core::operators::{OpError, OpKind, Polygon2D, Polyline3D};
use rge_core::params::{
    cuboid_indices, positive_finite, CuboidOp, Extent, ExtrudeOp, OperatorNode, RevolveOp, SweepOp, TransformOp,
    FULL_TURN_BITS, ONE_BITS,
};

fn profile(points: &[[f32; 2]]) -> Polygon2D {
    Polygon2D::new(points.iter().map(|p| (p[0].to_bits(), p[1].to_bits())).collect()).expect("profile")
}

fn ccw_square() -> Polygon2D {
    profile(&[[0.0, 0.0], [1.0, 0.0], [1.0, 1.0], [0.0, 1.0]])
}

fn ccw_square_on_plus_x() -> Polygon2D {
    profile(&[[1.0, 0.0], [2.0, 0.0], [2.0, 1.0], [1.0, 1.0]])
}

fn unit_triangle() -> Polygon2D {
    profile(&[[0.0, 0.0], [1.0, 0.0], [0.5, 1.0]])
}

fn z_path(zs: &[f32]) -> Polyline3D {
    Polyline3D::new(zs.iter().map(|z| (0.0f32.to_bits(), 0.0f32.to_bits(), z.to_bits())).collect())
        .expect("z-axis path")
}

fn blake3_of(parts: &[&[u8]]) -> [u8; 32] {
    let mut h = blake3::Hasher::new();
    for p in parts {
        h.update(p);
    }
    *h.finalize().as_bytes()
}

// -- box ---------------------------------------------------------------------

#[test]
fn default_returns_unit_cube() {
    let op = CuboidOp::default();
    assert!((f32::from_bits(op.width) - 1.0).abs() < f32::EPSILON);
    assert!((f32::from_bits(op.height) - 1.0).abs() < f32::EPSILON);
    assert!((f32::from_bits(op.depth) - 1.0).abs() < f32::EPSILON);
}

#[test]
fn evaluate_produces_8_vertices_and_12_triangles() {
    let op = CuboidOp::default();
    assert!(op.check_inputs(0).is_ok());
    assert!(op.validate().is_ok());
    let mesh = MeshTopology::new(8, cuboid_indices()).expect("box topology");
    assert_eq!(mesh.vertex_count(), 8);
    assert_eq!(mesh.triangle_count(), 12);
}

#[test]
fn cuboid_structural_hash_is_deterministic() {
    let a = CuboidOp { width: 1.5f32.to_bits(), height: 2.0f32.to_bits(), depth: 0.75f32.to_bits() };
    let b = CuboidOp { width: 1.5f32.to_bits(), height: 2.0f32.to_bits(), depth: 0.75f32.to_bits() };
    let c = CuboidOp { width: 1.5f32.to_bits(), height: 2.0f32.to_bits(), depth: 0.76f32.to_bits() };
    assert_eq!(a.structural_hash(), b.structural_hash());
    assert_ne!(a.structural_hash(), c.structural_hash());
}

#[test]
fn negative_dimension_rejected() {
    let op = CuboidOp { width: (-1.0f32).to_bits(), height: 1.0f32.to_bits(), depth: 1.0f32.to_bits() };
    assert_eq!(op.validate(), Err(Extent::Width));
}

#[test]
fn cuboid_output_is_labeled_returns_false() {
    let op = CuboidOp::default();
    assert!(!op.output_is_labeled(&[]));
}

#[test]
fn cuboid_validate_reports_first_bad_extent() {
    let nan = f32::NAN.to_bits();
    let op = CuboidOp { width: 1.0f32.to_bits(), height: 0.0f32.to_bits(), depth: nan };
    assert_eq!(op.validate(), Err(Extent::Height));
    let op = CuboidOp { width: 1.0f32.to_bits(), height: 2.0f32.to_bits(), depth: f32::INFINITY.to_bits() };
    assert_eq!(op.validate(), Err(Extent::Depth));
    assert_eq!(Extent::Depth.name(), "depth");
    let op = CuboidOp { width: (-0.0f32).to_bits(), height: 1.0f32.to_bits(), depth: 1.0f32.to_bits() };
    assert_eq!(op.validate(), Err(Extent::Width));
}

#[test]
fn cuboid_structural_hash_frames_tag_and_extents() {
    let op = CuboidOp::default();
    let one = ONE_BITS.to_le_bytes();
    assert_eq!(op.structural_hash(), blake3_of(&[b"cuboid", &one, &one, &one]));
    assert_eq!(op.op_kind(), OpKind::Cuboid);
    assert!(matches!(op.check_inputs(1), Err(OpError::WrongArity { expected: 0, got: 1 })));
}

#[test]
fn cuboid_index_buffer_is_counter_clockwise_from_outside() {
    let idx = cuboid_indices();
    assert_eq!(idx.len(), 36);
    assert_eq!(&idx[..6], &[0, 3, 2, 0, 2, 1]);
    assert_eq!(&idx[30..], &[1, 2, 6, 1, 6, 5]);
}

#[test]
fn positive_finite_matches_float_semantics() {
    for v in [1.0f32, 1e-45, f32::MAX, 0.5] {
        assert!(positive_finite(v.to_bits()), "{v}");
    }
    for v in [0.0f32, -0.0, -1.0, f32::INFINITY, f32::NEG_INFINITY, f32::NAN, -f32::NAN] {
        assert!(!positive_finite(v.to_bits()), "{v}");
    }
}

// -- transform ---------------------------------------------------------------

#[test]
fn arity_violation_returns_wrong_arity() {
    let op = TransformOp::default();
    let err = op.check_inputs(0).unwrap_err();
    assert!(matches!(err, OpError::WrongArity { expected: 1, got: 0 }));
}

#[test]
fn transform_structural_hash_is_deterministic() {
    let bits = |v: [f32; 3]| [v[0].to_bits(), v[1].to_bits(), v[2].to_bits()];
    let quat = [0.0f32.to_bits(), 0.0f32.to_bits(), 0.0f32.to_bits(), 1.0f32.to_bits()];
    let a = TransformOp { translation: bits([1.0, 2.0, 3.0]), rotation_quat_xyzw: quat, scale: bits([1.0, 1.0, 1.0]) };
    let b = a;
    let c = TransformOp { translation: bits([1.0, 2.0, 3.5]), ..a };
    assert_eq!(a.structural_hash(), b.structural_hash());
    assert_ne!(a.structural_hash(), c.structural_hash());
}

#[test]
fn transform_output_is_labeled_strips() {
    let op = TransformOp::default();
    assert!(!op.output_is_labeled(&[false]));
    assert!(!op.output_is_labeled(&[true]));
}

#[test]
fn transform_default_is_identity_and_hash_frames_components() {
    let op = TransformOp::default();
    assert_eq!(op.translation, [0, 0, 0]);
    assert_eq!(op.rotation_quat_xyzw, [0, 0, 0, 1.0f32.to_bits()]);
    assert_eq!(op.scale, [1.0f32.to_bits(); 3]);
    let z = 0u32.to_le_bytes();
    let one = ONE_BITS.to_le_bytes();
    let expect = blake3_of(&[b"transform", &z, &z, &z, &z, &z, &z, &one, &one, &one, &one]);
    assert_eq!(op.structural_hash(), expect);
    assert_eq!(op.op_kind(), OpKind::Transform);
    assert_eq!(op.arity(), 1);
}

// -- extrusion ---------------------------------------------------------------

#[test]
fn extrude_op_new_rejects_zero_length() {
    assert!(ExtrudeOp::new(ccw_square(), 0.0f32.to_bits()).is_none());
}

#[test]
fn extrude_op_new_rejects_negative_length() {
    assert!(ExtrudeOp::new(ccw_square(), (-1.0f32).to_bits()).is_none());
}

#[test]
fn extrude_op_new_rejects_non_finite_length() {
    assert!(ExtrudeOp::new(ccw_square(), f32::NAN.to_bits()).is_none());
    assert!(ExtrudeOp::new(ccw_square(), f32::INFINITY.to_bits()).is_none());
}

#[test]
fn extrude_rejects_inputs_for_arity_0() {
    let op = ExtrudeOp::new(ccw_square(), 1.0f32.to_bits()).expect("op");
    let err = op.check_inputs(1).unwrap_err();
    assert!(matches!(err, OpError::WrongArity { expected: 0, got: 1 }));
}

#[test]
fn extrude_post_construction_length_corruption_rejected() {
    let mut op = ExtrudeOp::new(ccw_square(), 1.0f32.to_bits()).expect("op");
    assert!(op.has_valid_length());
    op.length = (-1.0f32).to_bits();
    assert!(!op.has_valid_length());
}

#[test]
fn extrude_structural_hash_deterministic() {
    let a = ExtrudeOp::new(ccw_square(), 1.5f32.to_bits()).expect("a");
    let b = ExtrudeOp::new(ccw_square(), 1.5f32.to_bits()).expect("b");
    assert_eq!(a.structural_hash(), b.structural_hash());
}

#[test]
fn extrude_structural_hash_changes_with_length() {
    let a = ExtrudeOp::new(ccw_square(), 1.5f32.to_bits()).expect("a");
    let b = ExtrudeOp::new(ccw_square(), 1.6f32.to_bits()).expect("b");
    assert_ne!(a.structural_hash(), b.structural_hash());
}

#[test]
fn extrude_structural_hash_changes_with_profile_point_perturbation() {
    let a = ExtrudeOp::new(ccw_square(), 1.0f32.to_bits()).expect("a");
    let perturbed = profile(&[[0.0, 0.0], [1.0 + 1e-3, 0.0], [1.0, 1.0], [0.0, 1.0]]);
    let b = ExtrudeOp::new(perturbed, 1.0f32.to_bits()).expect("b");
    assert_ne!(a.structural_hash(), b.structural_hash());
}

#[test]
fn extrude_op_kind_is_extrude() {
    let op = ExtrudeOp::new(ccw_square(), 1.0f32.to_bits()).expect("op");
    assert_eq!(op.op_kind(), OpKind::Extrude);
    assert_eq!(op.arity(), 0);
}

#[test]
fn extrude_structural_hash_frames_length_count_and_points() {
    let op = ExtrudeOp::new(unit_triangle(), 2.0f32.to_bits()).expect("op");
    let le = |v: f32| v.to_bits().to_le_bytes();
    let expect = blake3_of(&[
        b"extrude:",
        &le(2.0),
        &3u32.to_le_bytes(),
        &le(0.0),
        &le(0.0),
        &le(1.0),
        &le(0.0),
        &le(0.5),
        &le(1.0),
    ]);
    assert_eq!(op.structural_hash(), expect);
}

// -- revolution --------------------------------------------------------------

#[test]
fn revolve_new_rejects_segments_below_3() {
    match RevolveOp::new(ccw_square_on_plus_x(), 2).unwrap_err() {
        OpError::InvalidParameter(msg) => {
            assert!(msg.contains("segments"), "msg = {msg}");
            assert_eq!(msg, "RevolveOp.segments must be >= 3 (got 2)");
        }
        other => panic!("expected InvalidParameter, got {other:?}"),
    }
    let err = RevolveOp::new(ccw_square_on_plus_x(), 0).unwrap_err();
    assert!(matches!(err, OpError::InvalidParameter(_)));
    let err = RevolveOp::new(ccw_square_on_plus_x(), 1).unwrap_err();
    assert!(matches!(err, OpError::InvalidParameter(_)));
}

#[test]
fn revolve_new_accepts_segments_3() {
    let op = RevolveOp::new(ccw_square_on_plus_x(), 3).expect("min valid");
    assert_eq!(op.segments(), 3);
}

#[test]
fn revolve_new_defaults_to_full_revolution() {
    let op = RevolveOp::new(ccw_square_on_plus_x(), 4).expect("op");
    assert_eq!(op.angle(), FULL_TURN_BITS);
    assert!((f32::from_bits(op.angle()) - 2.0 * std::f32::consts::PI).abs() < 1e-6);
    assert_eq!(FULL_TURN_BITS, (2.0 * std::f32::consts::PI).to_bits());
}

#[test]
fn revolve_evaluate_rejects_inputs_for_arity_0() {
    let op = RevolveOp::new(ccw_square_on_plus_x(), 4).expect("op");
    let err = op.check_inputs(1).unwrap_err();
    assert!(matches!(err, OpError::WrongArity { expected: 0, got: 1 }));
}

#[test]
fn revolve_structural_hash_deterministic() {
    let a = RevolveOp::new(ccw_square_on_plus_x(), 8).expect("a");
    let b = RevolveOp::new(ccw_square_on_plus_x(), 8).expect("b");
    assert_eq!(a.structural_hash(), b.structural_hash());
}

#[test]
fn revolve_structural_hash_changes_with_segments() {
    let a = RevolveOp::new(ccw_square_on_plus_x(), 4).expect("a");
    let b = RevolveOp::new(ccw_square_on_plus_x(), 8).expect("b");
    assert_ne!(a.structural_hash(), b.structural_hash());
}

#[test]
fn revolve_structural_hash_changes_with_profile_perturbation() {
    let a = RevolveOp::new(ccw_square_on_plus_x(), 6).expect("a");
    let perturbed = profile(&[[1.0, 0.0], [2.0 + 1.0e-3, 0.0], [2.0, 1.0], [1.0, 1.0]]);
    let b = RevolveOp::new(perturbed, 6).expect("b");
    assert_ne!(a.structural_hash(), b.structural_hash());
}

#[test]
fn revolve_op_kind_is_revolve() {
    let op = RevolveOp::new(ccw_square_on_plus_x(), 4).expect("op");
    assert_eq!(op.op_kind(), OpKind::Revolve);
    assert_eq!(op.arity(), 0);
}

#[test]
fn revolve_structural_hash_frames_segments_and_angle() {
    let op = RevolveOp::new(unit_triangle(), 5).expect("op");
    let le = |v: f32| v.to_bits().to_le_bytes();
    let expect = blake3_of(&[
        b"revolve:",
        &5u32.to_le_bytes(),
        &FULL_TURN_BITS.to_le_bytes(),
        &3u32.to_le_bytes(),
        &le(0.0),
        &le(0.0),
        &le(1.0),
        &le(0.0),
        &le(0.5),
        &le(1.0),
    ]);
    assert_eq!(op.structural_hash(), expect);
}

// -- sweep -------------------------------------------------------------------

#[test]
fn sweep_op_new_accepts_valid_inputs() {
    let op = SweepOp::new(ccw_square(), z_path(&[0.0, 1.0]));
    assert_eq!(op.op_kind(), OpKind::Sweep);
    assert_eq!(op.arity(), 0);
}

#[test]
fn sweep_rejects_inputs_for_arity_0() {
    let op = SweepOp::new(ccw_square(), z_path(&[0.0, 1.0]));
    let err = op.check_inputs(1).unwrap_err();
    assert!(matches!(err, OpError::WrongArity { expected: 0, got: 1 }));
}

#[test]
fn sweep_structural_hash_deterministic() {
    let op_a = SweepOp::new(ccw_square(), z_path(&[0.0, 1.0]));
    let op_b = SweepOp::new(ccw_square(), z_path(&[0.0, 1.0]));
    assert_eq!(op_a.structural_hash(), op_b.structural_hash());
}

#[test]
fn sweep_structural_hash_changes_with_path() {
    let op_a = SweepOp::new(ccw_square(), z_path(&[0.0, 1.0]));
    let op_b = SweepOp::new(ccw_square(), z_path(&[0.0, 2.0]));
    assert_ne!(op_a.structural_hash(), op_b.structural_hash());
}

#[test]
fn sweep_structural_hash_changes_with_profile() {
    let op_a = SweepOp::new(ccw_square(), z_path(&[0.0, 1.0]));
    let op_b = SweepOp::new(unit_triangle(), z_path(&[0.0, 1.0]));
    assert_ne!(op_a.structural_hash(), op_b.structural_hash());
}

#[test]
fn sweep_structural_hash_changes_with_path_segment_count() {
    let op_a = SweepOp::new(ccw_square(), z_path(&[0.0, 1.0]));
    let op_b = SweepOp::new(ccw_square(), z_path(&[0.0, 0.5, 1.0]));
    assert_ne!(op_a.structural_hash(), op_b.structural_hash());
}

#[test]
fn sweep_op_kind_is_sweep() {
    let op = SweepOp::new(ccw_square(), z_path(&[0.0, 1.0]));
    assert_eq!(op.op_kind(), OpKind::Sweep);
}

#[test]
fn sweep_output_is_labeled_returns_false() {
    let op = SweepOp::new(ccw_square(), z_path(&[0.0, 1.0]));
    assert!(!op.output_is_labeled(&[]));
}

#[test]
fn sweep_structural_hash_frames_profile_then_path() {
    let op = SweepOp::new(unit_triangle(), z_path(&[0.0, 1.0]));
    let le = |v: f32| v.to_bits().to_le_bytes();
    let expect = blake3_of(&[
        b"sweep:",
        &3u32.to_le_bytes(),
        &le(0.0),
        &le(0.0),
        &le(1.0),
        &le(0.0),
        &le(0.5),
        &le(1.0),
        &2u32.to_le_bytes(),
        &le(0.0),
        &le(0.0),
        &le(0.0),
        &le(0.0),
        &le(0.0),
        &le(1.0),
    ]);
    assert_eq!(op.structural_hash(), expect);
}

// -- box edges ---------------------------------------------------------------

#[test]
fn cuboid_edge_corner_indices_arg_order_independent() {
    for (a, b) in cuboid_edge_tag_pairs() {
        let (i_ab, j_ab) = cuboid_edge_corner_indices(a, b);
        let (i_ba, j_ba) = cuboid_edge_corner_indices(b, a);
        assert_eq!((i_ab, j_ab), (i_ba, j_ba), "order-independent for ({a:?}, {b:?})");
    }
}

#[test]
fn cuboid_edge_corner_indices_all_pairs_in_bounds() {
    for (a, b) in cuboid_edge_tag_pairs() {
        let (i, j) = cuboid_edge_corner_indices(a, b);
        assert!(i < 8 && j < 8, "corner indices ({i}, {j}) for ({a:?}, {b:?}) out of bounds");
        assert_ne!(i, j, "edge endpoints must differ for ({a:?}, {b:?})");
    }
}

#[test]
fn cuboid_edge_corners_of_parallel_faces_are_zero() {
    assert_eq!(cuboid_edge_corner_indices(CuboidFaceTag::NegZ, CuboidFaceTag::PosZ), (0, 0));
    assert_eq!(cuboid_edge_corner_indices(CuboidFaceTag::PosX, CuboidFaceTag::PosX), (0, 0));
    assert_eq!(cuboid_edge_corner_indices(CuboidFaceTag::PosX, CuboidFaceTag::PosY), (2, 6));
    assert_eq!(cuboid_edge_tag_pairs().len(), 12);
    assert_eq!(CuboidFaceTag::NegX.discriminant(), 4);
}

// -- chamfer -----------------------------------------------------------------

#[test]
fn evaluate_one_edge_adds_2_vertices_and_2_triangles() {
    let edges = vec![cuboid_edge_tag_pairs()[0]];
    let out = chamfer_indices(8, &cuboid_indices(), &edges).expect("chamfer");
    assert_eq!(out.len(), 36 + 6);
    assert_eq!(&out[36..], &[0, 1, 8, 1, 9, 8]);
    let mesh = MeshTopology::new(10, out).expect("valid");
    assert_eq!(mesh.triangle_count(), 14);
}

#[test]
fn evaluate_three_edges_adds_6_vertices_and_6_triangles() {
    let all = cuboid_edge_tag_pairs();
    let edges = vec![all[0], all[5], all[11]];
    let out = chamfer_indices(8, &cuboid_indices(), &edges).expect("chamfer");
    assert_eq!(out.len(), 54);
    assert_eq!(&out[42..48], &[7, 6, 10, 6, 11, 10]);
    assert_eq!(&out[48..], &[2, 6, 12, 6, 13, 12]);
    let mesh = MeshTopology::new(14, out).expect("valid");
    assert_eq!(mesh.triangle_count(), 18);
}

#[test]
fn chamfer_rejects_a_mesh_without_the_box_corners() {
    let edges = vec![(CuboidFaceTag::PosZ, CuboidFaceTag::PosY)];
    match chamfer_indices(4, &vec![0, 1, 2], &edges).unwrap_err() {
        OpError::InvalidParameter(m) => assert_eq!(
            m,
            "FilletOp upstream tessellation has only 4 vertices; expected at least 8 (Cuboid layout)"
        ),
        other => panic!("unexpected {other:?}"),
    }
}

#[test]
fn evaluate_rejects_wrong_arity_zero_inputs() {
    assert!(matches!(chamfer_check_inputs(0), Err(OpError::WrongArity { expected: 1, got: 0 })));
}

#[test]
fn evaluate_rejects_wrong_arity_two_inputs() {
    assert!(matches!(chamfer_check_inputs(2), Err(OpError::WrongArity { expected: 1, got: 2 })));
    assert!(chamfer_check_inputs(1).is_ok());
}

#[test]
fn output_is_labeled_strips() {
    assert!(!chamfer_output_is_labeled(&[false]));
    assert!(!chamfer_output_is_labeled(&[true]));
}

// -- labeled extrusion -------------------------------------------------------

#[test]
fn extrude_labels_caps_and_walls() {
    let (idx, labels) = extrude_indices(4);
    assert_eq!(idx.len(), 36);
    let ids: Vec<u64> = labels.iter().map(|f| f.0).collect();
    assert_eq!(ids, vec![0, 0, 1, 1, 2, 2, 3, 3, 4, 4, 5, 5]);
    let mesh = MeshTopology::with_labels(8, idx, labels).expect("labeled prism");
    assert_eq!(mesh.face_count(), Some(6));
}

// -- operator nodes ----------------------------------------------------------

#[test]
fn operator_node_dispatches_cuboid() {
    let node = OperatorNode::Cuboid(CuboidOp::default());
    assert_eq!(node.op_kind(), OpKind::Cuboid);
    assert_eq!(node.arity(), 0);
    assert!(node.check_inputs(0).is_ok());
    assert_eq!(node.structural_hash(), CuboidOp::default().structural_hash());
}

#[test]
fn operator_node_dispatches_transform() {
    let node = OperatorNode::Transform(TransformOp::default());
    assert_eq!(node.op_kind(), OpKind::Transform);
    assert_eq!(node.arity(), 1);
    assert!(!node.output_is_labeled(&[true]));
}

#[test]
fn operator_node_dispatches_extrude() {
    let node = OperatorNode::Extrude(ExtrudeOp::new(ccw_square(), 1.0f32.to_bits()).expect("extrude op"));
    assert_eq!(node.op_kind(), OpKind::Extrude);
    assert_eq!(node.arity(), 0);
    let (idx, _) = extrude_indices(4);
    assert_eq!(idx.len(), 36);
}

#[test]
fn operator_node_dispatches_revolve() {
    let node = OperatorNode::Revolve(RevolveOp::new(ccw_square_on_plus_x(), 6).expect("revolve op"));
    assert_eq!(node.op_kind(), OpKind::Revolve);
    assert_eq!(node.arity(), 0);
    assert!(matches!(node.check_inputs(1), Err(OpError::WrongArity { expected: 0, got: 1 })));
}

#[test]
fn operator_node_boolean_checks_two_inputs() {
    let node = OperatorNode::Boolean(rge_core::operators::BooleanOp::union());
    assert_eq!(node.op_kind(), OpKind::Boolean);
    assert_eq!(node.arity(), 2);
    assert!(matches!(node.check_inputs(0), Err(OpError::WrongArity { expected: 2, got: 0 })));
}
