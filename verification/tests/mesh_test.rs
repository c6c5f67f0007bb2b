use rge_core::mesh::{validate_buffers, MeshTopology, TessellationError, TopologyFaceId};

#[test]
fn out_of_bounds_index_rejected() {
    let positions: usize = 3;
    let indices = vec![0, 1, 5];
    let err = MeshTopology::new(positions, indices).unwrap_err();
    assert!(matches!(
        err,
        TessellationError::IndexOutOfBounds { index_value: 5, num_positions: 3 }
    ));
}

#[test]
fn non_multiple_of_three_indices_rejected() {
    let err = MeshTopology::new(3, vec![0, 1, 2, 0]).unwrap_err();
    assert_eq!(err, TessellationError::IncompleteTriangle { index_count: 4 });
}

#[test]
fn valid_box_constructs() {
    let indices = vec![
        0, 1, 2, 0, 2, 3, //
        5, 4, 7, 5, 7, 6, //
        4, 0, 3, 4, 3, 7, //
        1, 5, 6, 1, 6, 2, //
        3, 2, 6, 3, 6, 7, //
        4, 5, 1, 4, 1, 0,
    ];
    let mesh = MeshTopology::new(8, indices).expect("valid box");
    assert_eq!(mesh.vertex_count(), 8);
    assert_eq!(mesh.triangle_count(), 12);
}

#[test]
fn topology_face_id_degenerate_sentinel() {
    let id = TopologyFaceId::degenerate();
    assert!(id.is_degenerate());
    assert_eq!(id.0, u64::MAX);
    let normal = TopologyFaceId(7);
    assert!(!normal.is_degenerate());
}

#[test]
fn topology_face_id_display_forms() {
    assert_eq!(TopologyFaceId(42).text(), "face:42");
    assert_eq!(TopologyFaceId::degenerate().text(), "face:degenerate");
}

#[test]
fn tessellation_new_returns_unlabeled() {
    let tess = MeshTopology::new(3, vec![0, 1, 2]).expect("valid");
    assert!(!tess.is_labeled());
    assert!(tess.face_labels().is_none());
    assert_eq!(tess.face_count(), None);
}

#[test]
fn tessellation_with_labels_validates_label_count_matches_triangle_count() {
    let indices = vec![0_u32, 1, 2];
    let err = MeshTopology::with_labels(3, indices.clone(), vec![]).unwrap_err();
    assert!(matches!(err, TessellationError::LabelLengthMismatch { got: 0, expected: 1 }));
    let err = MeshTopology::with_labels(3, indices.clone(), vec![TopologyFaceId(0), TopologyFaceId(1)])
        .unwrap_err();
    assert!(matches!(err, TessellationError::LabelLengthMismatch { got: 2, expected: 1 }));
    let ok = MeshTopology::with_labels(3, indices, vec![TopologyFaceId(0)]).expect("valid");
    assert_eq!(ok.triangle_count(), 1);
    assert!(ok.is_labeled());
}

#[test]
fn tessellation_with_labels_validates_indices_multiple_of_3() {
    let err = MeshTopology::with_labels(3, vec![0_u32, 1, 2, 0], vec![TopologyFaceId(0)]).unwrap_err();
    assert!(matches!(err, TessellationError::IncompleteTriangle { index_count: 4 }));
}

#[test]
fn tessellation_with_labels_validates_index_bounds() {
    let err = MeshTopology::with_labels(3, vec![0_u32, 1, 5], vec![TopologyFaceId(0)]).unwrap_err();
    assert!(matches!(
        err,
        TessellationError::IndexOutOfBounds { index_value: 5, num_positions: 3 }
    ));
}

#[test]
fn tessellation_is_labeled_returns_true_when_labeled_false_otherwise() {
    let indices = vec![0_u32, 1, 2];
    let unlabeled = MeshTopology::new(3, indices.clone()).expect("unlabeled");
    assert!(!unlabeled.is_labeled());
    let labeled = MeshTopology::with_labels(3, indices, vec![TopologyFaceId(7)]).expect("labeled");
    assert!(labeled.is_labeled());
}

#[test]
fn tessellation_face_count_returns_some_when_labeled_none_otherwise() {
    let unlabeled = MeshTopology::new(4, vec![0_u32, 1, 2, 1, 3, 2]).expect("unlabeled");
    assert_eq!(unlabeled.face_count(), None);
    let m = MeshTopology::with_labels(4, vec![0_u32, 1, 2, 1, 3, 2], vec![TopologyFaceId(0), TopologyFaceId(1)])
        .expect("valid");
    assert_eq!(m.face_count(), Some(2));
    let m = MeshTopology::with_labels(4, vec![0_u32, 1, 2, 1, 3, 2], vec![TopologyFaceId(7), TopologyFaceId(7)])
        .expect("valid");
    assert_eq!(m.face_count(), Some(1));
}

#[test]
fn tessellation_face_count_excludes_degenerate_sentinel() {
    let m = MeshTopology::with_labels(
        4,
        vec![0_u32, 1, 2, 1, 3, 2],
        vec![TopologyFaceId(0), TopologyFaceId::degenerate()],
    )
    .expect("valid");
    assert_eq!(m.face_count(), Some(1));
}

#[test]
fn tessellation_face_labels_returns_slice_when_labeled() {
    let m = MeshTopology::with_labels(3, vec![0_u32, 1, 2], vec![TopologyFaceId(42)]).expect("valid");
    let slice = m.face_labels().expect("labeled");
    assert_eq!(slice.len(), 1);
    assert_eq!(slice[0], TopologyFaceId(42));
}

#[test]
fn validate_reports_first_out_of_bounds_index() {
    assert_eq!(
        validate_buffers(2, &[0, 7, 1, 9, 0, 1]),
        Err(TessellationError::IndexOutOfBounds { index_value: 7, num_positions: 2 })
    );
    assert_eq!(validate_buffers(0, &[]), Ok(()));
    assert_eq!(
        TessellationError::IndexOutOfBounds { index_value: 5, num_positions: 3 }.message(),
        "index 5 out of bounds (positions has 3 entries)"
    );
    assert_eq!(
        TessellationError::IncompleteTriangle { index_count: 4 }.message(),
        "incomplete triangle: 4 indices is not a multiple of 3"
    );
    assert_eq!(
        TessellationError::LabelLengthMismatch { got: 0, expected: 1 }.message(),
        "face_labels length (0) must equal triangle count (1)"
    );
}

#[test]
fn per_triangle_labels_fill_unlabeled_meshes_with_the_sentinel() {
    let unlabeled = MeshTopology::new(4, vec![0, 1, 2, 1, 3, 2]).unwrap();
    assert_eq!(unlabeled.per_triangle_labels(), vec![TopologyFaceId::degenerate(); 2]);
    let labeled = MeshTopology::with_labels(4, vec![0, 1, 2, 1, 3, 2], vec![TopologyFaceId(3), TopologyFaceId(4)]).unwrap();
    assert_eq!(labeled.per_triangle_labels(), vec![TopologyFaceId(3), TopologyFaceId(4)]);
}
